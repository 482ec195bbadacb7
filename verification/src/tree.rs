//! Whole trees of directories and files, and what taking one out of the
//! file system leaves behind.
use vstd::prelude::*;
use crate::block_map::blocks_for;
use crate::dir::{lookup, names, tiled, Lookup};
use crate::efs::FsView;
use crate::layout::EXT2_FT_DIR;
use crate::sound::lemma_apart_sym;
use crate::vfs::{dot, dot_dot, Inode};

verus! {

/// Every inode among `s` that is marked as used is that of a sound file,
/// and every two of these files are apart.
pub open spec fn tidy(v: FsView, s: Set<int>) -> bool {
    &&& forall|a: Inode|
        #[trigger] a.valid(v) && s.contains(a.inode_id as int) && v.inode_used(a.inode_id as int) ==> a.sound(v)
    &&& forall|a: Inode, b: Inode|
        #[trigger] a.valid(v) && #[trigger] b.valid(v) && s.contains(a.inode_id as int) && s.contains(
            b.inode_id as int,
        ) && v.inode_used(a.inode_id as int) && v.inode_used(b.inode_id as int) && a.inode_id != b.inode_id
            ==> a.apart_from(b, v)
}

impl Inode {
    /// The names of the entries of this directory in `v`, in order.
    pub open spec fn entries(&self, v: FsView) -> Seq<Seq<u8>> {
        names(self.bytes(v)).unwrap()
    }

    /// The file that entry number `k` of this directory leads to in `v`.
    pub open spec fn kid(&self, v: FsView, k: int) -> Inode {
        self.child_of(v, self.entries(v)[k])
    }

    /// The entry `..` of this directory leads to the inode `id`.
    pub open spec fn leads_up(&self, v: FsView, id: int) -> bool {
        lookup(self.bytes(v), dot_dot()) matches Lookup::Found { head, .. } && head.inode == id
    }

    /// The inode `id` is that of this file, or of a file that is reached
    /// from this directory through at most `depth` entries other than `.`
    /// and `..`.
    pub open spec fn in_tree(&self, v: FsView, depth: nat, id: int) -> bool
        decreases depth, 0nat, 0nat,
    {
        id == self.inode_id || (depth > 0 && self.kind(v) == EXT2_FT_DIR && self.in_kids(
            v,
            (depth - 1) as nat,
            2,
            self.entries(v).len() as int,
            id,
        ))
    }

    /// The inode `id` is in the tree of one of the entries of this
    /// directory from number `from` up to number `to`.
    pub open spec fn in_kids(&self, v: FsView, depth: nat, from: int, to: int, id: int) -> bool
        decreases depth, 1nat, (if from < to {
            to - from
        } else {
            0
        }) as nat,
    {
        from < to && (self.kid(v, from).in_tree(v, depth, id) || self.in_kids(v, depth, from + 1, to, id))
    }

    /// How many inodes the tree of this file has, `depth` entries deep.
    pub open spec fn tree_size(&self, v: FsView, depth: nat) -> nat
        decreases depth, 0nat, 0nat,
    {
        if depth > 0 && self.kind(v) == EXT2_FT_DIR {
            1 + self.kids_size(v, (depth - 1) as nat, 2)
        } else {
            1
        }
    }

    /// How many inodes the trees of the entries of this directory from
    /// number `from` on have together.
    pub open spec fn kids_size(&self, v: FsView, depth: nat, from: int) -> nat
        decreases depth, 1nat, (if from < self.entries(v).len() {
            self.entries(v).len() - from
        } else {
            0
        }) as nat,
    {
        if 0 <= from < self.entries(v).len() {
            self.kid(v, from).tree_size(v, depth) + self.kids_size(v, depth, from + 1)
        } else {
            0
        }
    }

    /// How many of the entries of this directory from number `from` on
    /// lead to directories.
    pub open spec fn subdirs(&self, v: FsView, from: int) -> nat
        decreases (if from < self.entries(v).len() {
            self.entries(v).len() - from
        } else {
            0
        }) as nat,
    {
        if 0 <= from < self.entries(v).len() {
            (if self.kid(v, from).kind(v) == EXT2_FT_DIR {
                1nat
            } else {
                0nat
            }) + self.subdirs(v, from + 1)
        } else {
            0
        }
    }

    /// This is a whole tree, at most `depth` entries deep. Every file of
    /// it is of the kind that its inode says. A file that is no directory
    /// has one link. A directory has at most 65535 bytes of
    /// whole entries, with a name each: first `.` and `..`, then entries
    /// that lead to whole trees, of which no two share an inode and none
    /// holds the directory; a directory among them leads back here with
    /// its `..`; and the directory counts two links and one for each such
    /// directory. Every inode of the tree is marked as used.
    pub open spec fn whole(&self, v: FsView, depth: nat) -> bool
        decreases depth,
    {
        &&& self.valid(v)
        &&& v.inode_used(self.inode_id as int)
        &&& self.kind(v) == self.inode(v).spec_file_code()
        &&& if self.kind(v) != EXT2_FT_DIR {
            self.inode(v).i_links_count == 1
        } else {
            &&& depth > 0
            &&& self.inode(v).spec_is_dir()
            &&& tiled(self.bytes(v))
            &&& self.bytes(v).len() <= u16::MAX
            &&& names(self.bytes(v)) is Some
            &&& self.entries(v).len() >= 2
            &&& self.entries(v)[0] == dot()
            &&& self.entries(v)[1] == dot_dot()
            &&& self.entries(v).no_duplicates()
            &&& self.inode(v).i_links_count == 2 + self.subdirs(v, 2)
            &&& forall|k: int|
                2 <= k < self.entries(v).len() ==> {
                    &&& (#[trigger] self.kid(v, k)).whole(v, (depth - 1) as nat)
                    &&& lookup(self.bytes(v), self.entries(v)[k]) is Found
                    &&& 1 <= lookup(self.bytes(v), self.entries(v)[k])->head.inode <= v.super_block.s_inodes_count
                    &&& !self.kid(v, k).in_tree(v, (depth - 1) as nat, self.inode_id as int)
                    &&& self.kid(v, k).kind(v) == EXT2_FT_DIR ==> self.kid(v, k).leads_up(v, self.inode_id as int)
                }
            &&& forall|k: int, x: int|
                2 <= k < self.entries(v).len() && #[trigger] self.kid(v, k).in_tree(v, (depth - 1) as nat, x)
                    ==> !self.in_kids(v, (depth - 1) as nat, 2, k, x)
        }
    }

    /// Storing the inode of a sound file with another link count leaves
    /// alone every sound file that is apart from it, and leaves the two
    /// apart.
    pub proof fn lemma_relinked_spares(&self, other: Inode, v: FsView, w: FsView)
        requires
            v.wf(),
            self.sound(v),
            other.sound(v),
            self.apart_from(other, v),
            self.relinked(v, w, self.inode(w).i_links_count as int),
            w == v.inode_written(self.block_id as int, self.block_offset as int, self.inode(w)),
        ensures
            other.quiet(v, w),
            other.sound(w),
            other.inode(w) == other.inode(v),
            other.bytes(w) == other.bytes(v),
            self.apart_from(other, w),
    {
        self.lemma_valid(v, v);
        other.lemma_valid(v, v);
        let region = v.disk[self.block_id as int].subrange(self.block_offset as int, self.block_offset + 128);
        v.lemma_blocks();
        self.inode(w).lemma_store_parse(region);
        other.lemma_slot_written(*self, v, self.block_offset as int, self.inode(w).store(region));
        lemma_apart_sym(
            v,
            self.pos(),
            blocks_for(self.inode(v).i_size as int),
            other.pos(),
            blocks_for(other.inode(v).i_size as int),
        );
        other.lemma_both_alone_after(*self, v, w);
        lemma_apart_sym(
            w,
            other.pos(),
            blocks_for(other.inode(w).i_size as int),
            self.pos(),
            blocks_for(self.inode(w).i_size as int),
        );
    }

    /// Taking out an entry that leads to a file with one link leaves a
    /// tidy file system tidy.
    pub proof fn lemma_tidy_unlinked(&self, v: FsView, w: FsView, name: Seq<u8>, s: Set<int>)
        requires
            v.wf(),
            v.same_geometry(w),
            tidy(v, s),
            s.contains(self.inode_id as int),
            s.contains(self.child_of(v, name).inode_id as int),
            self.can_unlink(v, name),
            self.unlinked(v, w, name),
            self.child_of(v, name).inode(v).i_links_count == 1,
        ensures
            tidy(w, s),
    {
        let gone = self.child_of(v, name);
        v.lemma_same_geometry(w);
        assert(self.spared_all(gone, v, w));
        assert(gone.valid(v));
        assert forall|a: Inode|
            #[trigger] a.valid(w) && s.contains(a.inode_id as int) && w.inode_used(
                a.inode_id as int,
            ) implies a.sound(w) by {
            self.lemma_tidy_one(a, v, w, name, s);
        }
        assert forall|a: Inode, b: Inode|
            #[trigger] a.valid(w) && #[trigger] b.valid(w) && s.contains(a.inode_id as int) && s.contains(
                b.inode_id as int,
            ) && w.inode_used(a.inode_id as int) && w.inode_used(b.inode_id as int) && a.inode_id
                != b.inode_id implies a.apart_from(b, w) by {
            self.lemma_tidy_one(a, v, w, name, s);
            self.lemma_tidy_one(b, v, w, name, s);
            if a.inode_id == self.inode_id {
                assert(self.apart_from(b, w));
            } else if b.inode_id == self.inode_id {
                assert(self.apart_from(a, w));
                lemma_apart_sym(
                    w,
                    self.pos(),
                    blocks_for(self.inode(w).i_size as int),
                    a.pos(),
                    blocks_for(a.inode(w).i_size as int),
                );
            } else {
                a.lemma_both_alone(b, v, w);
            }
        }
    }

    /// What taking out an entry that leads to a file with one link does to
    /// a file of a tidy file system whose inode is marked as used
    /// afterwards: the file is sound; and where it is not the directory,
    /// it was left alone, and the directory is apart from it.
    pub proof fn lemma_tidy_one(&self, a: Inode, v: FsView, w: FsView, name: Seq<u8>, s: Set<int>)
        requires
            v.wf(),
            v.same_geometry(w),
            tidy(v, s),
            s.contains(self.inode_id as int),
            s.contains(self.child_of(v, name).inode_id as int),
            self.can_unlink(v, name),
            self.unlinked(v, w, name),
            self.child_of(v, name).inode(v).i_links_count == 1,
            a.valid(w),
            s.contains(a.inode_id as int),
            w.inode_used(a.inode_id as int),
        ensures
            a.valid(v),
            v.inode_used(a.inode_id as int),
            a.sound(v),
            a.sound(w),
            a.inode_id != self.child_of(v, name).inode_id,
            a.inode_id != self.inode_id ==> a.quiet(v, w) && self.apart_from(a, w) && self.apart_from(a, v),
    {
        let gone = self.child_of(v, name);
        v.lemma_same_geometry(w);
        assert(self.spared_all(gone, v, w));
        assert(gone.valid(v));
        assert(a.valid(v));
        if a.inode_id != self.inode_id {
            let left = a.quiet(v, w);
            assert(left && self.apart_from(a, w));
            a.lemma_left_alone(v, w);
        } else {
            assert(a.pos() == self.pos());
        }
    }

    /// What taking back the links of `.` and `..` of an empty directory
    /// does to a file of a tidy file system whose inode is marked as used:
    /// the file is sound afterwards; and where it is not the directory or
    /// the one above it, it was left alone, and both are apart from it.
    pub proof fn lemma_tidy_dots_one(&self, a: Inode, v: FsView, w: FsView, s: Set<int>)
        requires
            v.wf(),
            v.same_geometry(w),
            tidy(v, s),
            s.contains(self.inode_id as int),
            s.contains(self.parent_of(v).inode_id as int),
            self.is_empty_dir(v),
            self.dots_taken(v, w),
            a.valid(w),
            s.contains(a.inode_id as int),
            w.inode_used(a.inode_id as int),
        ensures
            a.valid(v),
            a.sound(v),
            a.sound(w),
            a.inode_id != self.inode_id && a.inode_id != self.parent_of(v).inode_id ==> a.quiet(v, w)
                && self.apart_from(a, w) && self.parent_of(v).apart_from(a, w),
    {
        let up = self.parent_of(v);
        v.lemma_same_geometry(w);
        assert(a.valid(v));
        assert(up.valid(v));
        assert(self.valid(v));
        if a.inode_id == self.inode_id {
            assert(a.pos() == self.pos());
        } else if a.inode_id == up.inode_id {
            assert(a.pos() == up.pos());
        } else {
            let left = a.quiet(v, w);
            assert(left && self.apart_from(a, w) && up.apart_from(a, w));
            a.lemma_left_alone(v, w);
        }
    }

    /// Taking back the links of `.` and `..` of an empty directory leaves a
    /// tidy file system tidy.
    pub proof fn lemma_tidy_dots(&self, v: FsView, w: FsView, s: Set<int>)
        requires
            v.wf(),
            v.same_geometry(w),
            tidy(v, s),
            s.contains(self.inode_id as int),
            s.contains(self.parent_of(v).inode_id as int),
            self.is_empty_dir(v),
            self.dots_taken(v, w),
        ensures
            tidy(w, s),
    {
        let up = self.parent_of(v);
        v.lemma_same_geometry(w);
        assert forall|a: Inode|
            #[trigger] a.valid(w) && s.contains(a.inode_id as int) && w.inode_used(
                a.inode_id as int,
            ) implies a.sound(w) by {
            self.lemma_tidy_dots_one(a, v, w, s);
        }
        assert forall|a: Inode, b: Inode|
            #[trigger] a.valid(w) && #[trigger] b.valid(w) && s.contains(a.inode_id as int) && s.contains(
                b.inode_id as int,
            ) && w.inode_used(a.inode_id as int) && w.inode_used(b.inode_id as int) && a.inode_id
                != b.inode_id implies a.apart_from(b, w) by {
            self.lemma_tidy_dots_one(a, v, w, s);
            self.lemma_tidy_dots_one(b, v, w, s);
            let a_in = a.inode_id == self.inode_id || a.inode_id == up.inode_id;
            let b_in = b.inode_id == self.inode_id || b.inode_id == up.inode_id;
            if a_in && b_in {
                assert(self.apart_from(up, w));
                lemma_apart_sym(
                    w,
                    self.pos(),
                    blocks_for(self.inode(w).i_size as int),
                    up.pos(),
                    blocks_for(up.inode(w).i_size as int),
                );
            } else if a_in {
                assert(self.apart_from(b, w) && up.apart_from(b, w));
            } else if b_in {
                assert(self.apart_from(a, w) && up.apart_from(a, w));
                lemma_apart_sym(
                    w,
                    self.pos(),
                    blocks_for(self.inode(w).i_size as int),
                    a.pos(),
                    blocks_for(a.inode(w).i_size as int),
                );
                lemma_apart_sym(
                    w,
                    up.pos(),
                    blocks_for(up.inode(w).i_size as int),
                    a.pos(),
                    blocks_for(a.inode(w).i_size as int),
                );
            } else {
                a.lemma_both_alone(b, v, w);
            }
        }
    }

    /// An inode that is in the tree of one of the entries from `from` up
    /// to `to` is in the tree of one that the lemma names.
    pub proof fn lemma_in_kids_which(&self, v: FsView, depth: nat, from: int, to: int, x: int) -> (k: int)
        requires
            self.in_kids(v, depth, from, to, x),
        ensures
            from <= k < to,
            self.kid(v, k).in_tree(v, depth, x),
        decreases to - from,
    {
        if self.kid(v, from).in_tree(v, depth, x) {
            from
        } else {
            self.lemma_in_kids_which(v, depth, from + 1, to, x)
        }
    }

    /// An inode in the tree of entry number `k` is in the trees of the
    /// entries from `from` up to `to`, where `k` is one of these.
    pub proof fn lemma_in_kids_at(&self, v: FsView, depth: nat, from: int, to: int, k: int, x: int)
        requires
            from <= k < to,
            self.kid(v, k).in_tree(v, depth, x),
        ensures
            self.in_kids(v, depth, from, to, x),
        decreases k - from,
    {
        if from < k {
            self.lemma_in_kids_at(v, depth, from + 1, to, k, x);
        }
    }

    /// Every inode of a whole tree is an inode of the file system that is
    /// marked as used.
    pub proof fn lemma_tree_used(&self, v: FsView, depth: nat, x: int)
        requires
            self.whole(v, depth),
            self.in_tree(v, depth, x),
        ensures
            1 <= x <= v.super_block.s_inodes_count,
            v.inode_used(x),
        decreases depth,
    {
        if x != self.inode_id {
            let below = (depth - 1) as nat;
            let k = self.lemma_in_kids_which(v, below, 2, self.entries(v).len() as int, x);
            assert(self.kid(v, k).whole(v, below));
            self.kid(v, k).lemma_tree_used(v, below, x);
        }
    }

    /// The entries of this directory lead in `w` where they led in `v`,
    /// to files of the same kind with trees of the same inodes.
    pub open spec fn same_kids(&self, v: FsView, w: FsView, depth: nat) -> bool {
        &&& self.entries(w) == self.entries(v)
        &&& forall|k: int|
            2 <= k < self.entries(v).len() ==> {
                &&& self.kid(w, k) == (#[trigger] self.kid(v, k))
                &&& self.kid(v, k).kind(w) == self.kid(v, k).kind(v)
                &&& self.kid(v, k).tree_size(w, depth) == self.kid(v, k).tree_size(v, depth)
            }
        &&& forall|k: int, x: int|
            2 <= k < self.entries(v).len() ==> #[trigger] self.kid(v, k).in_tree(w, depth, x) == self.kid(
                v,
                k,
            ).in_tree(v, depth, x)
    }

    /// With the same files behind the entries, as many of them are
    /// directories, and their trees have as many inodes.
    pub proof fn lemma_same_counts(&self, v: FsView, w: FsView, depth: nat, from: int)
        requires
            self.same_kids(v, w, depth),
            2 <= from,
        ensures
            self.subdirs(w, from) == self.subdirs(v, from),
            self.kids_size(w, depth, from) == self.kids_size(v, depth, from),
        decreases
                (if from < self.entries(v).len() {
                    self.entries(v).len() - from
                } else {
                    0
                }) as nat,
    {
        if from < self.entries(v).len() {
            assert(self.kid(w, from) == self.kid(v, from));
            self.lemma_same_counts(v, w, depth, from + 1);
        }
    }

    /// With the same files behind the entries, the same inodes are in
    /// their trees.
    pub proof fn lemma_same_in_kids(&self, v: FsView, w: FsView, depth: nat, from: int, to: int, x: int)
        requires
            self.same_kids(v, w, depth),
            2 <= from,
            to <= self.entries(v).len(),
        ensures
            self.in_kids(w, depth, from, to, x) == self.in_kids(v, depth, from, to, x),
        decreases to - from,
    {
        if from < to {
            assert(self.kid(w, from) == self.kid(v, from));
            assert(self.kid(v, from).in_tree(w, depth, x) == self.kid(v, from).in_tree(v, depth, x));
            self.lemma_same_in_kids(v, w, depth, from + 1, to, x);
        }
    }

    /// From `v` to `w` the file was left alone; or it is no directory, and
    /// its inode is marked as used and says of what kind the file is and
    /// how many links it has, as before.
    pub open spec fn stays(&self, v: FsView, w: FsView) -> bool {
        self.quiet(v, w) || (self.inode(v).spec_file_code() != EXT2_FT_DIR && w.inode_used(self.inode_id as int)
            && self.inode(w).i_mode == self.inode(v).i_mode && self.inode(w).i_links_count == self.inode(
            v,
        ).i_links_count)
    }

    /// A whole tree all of whose files have stayed is the whole tree that
    /// it was.
    pub proof fn lemma_tree_stays(&self, v: FsView, w: FsView, depth: nat)
        requires
            v.wf(),
            v.same_geometry(w),
            self.whole(v, depth),
            forall|o: Inode|
                #[trigger] o.valid(v) && self.in_tree(v, depth, o.inode_id as int) ==> o.sound(v) && o.stays(v, w),
        ensures
            self.whole(w, depth),
            self.sound(v),
            self.kind(w) == self.kind(v),
            self.inode(w).i_mode == self.inode(v).i_mode,
            self.kind(v) == EXT2_FT_DIR ==> self.inode(w) == self.inode(v) && self.bytes(w) == self.bytes(v),
            self.tree_size(w, depth) == self.tree_size(v, depth),
            forall|x: int| self.in_tree(w, depth, x) == self.in_tree(v, depth, x),
        decreases depth,
    {
        v.lemma_same_geometry(w);
        assert(self.valid(v));
        assert(self.sound(v));
        assert(self.stays(v, w));
        if self.kind(v) == EXT2_FT_DIR {
            assert(self.quiet(v, w));
            self.lemma_left_alone(v, w);
            let below = (depth - 1) as nat;
            let all = self.entries(v);
            assert forall|k: int| 2 <= k < all.len() implies {
                &&& self.kid(w, k) == (#[trigger] self.kid(v, k))
                &&& self.kid(v, k).whole(w, below)
                &&& self.kid(v, k).kind(w) == self.kid(v, k).kind(v)
                &&& self.kid(v, k).kind(v) == EXT2_FT_DIR ==> self.kid(v, k).bytes(w) == self.kid(v, k).bytes(v)
                &&& self.kid(v, k).tree_size(w, below) == self.kid(v, k).tree_size(v, below)
                &&& forall|x: int| self.kid(v, k).in_tree(w, below, x) == self.kid(v, k).in_tree(v, below, x)
            } by {
                let kid = self.kid(v, k);
                assert(kid.whole(v, below));
                assert forall|o: Inode|
                    #[trigger] o.valid(v) && kid.in_tree(v, below, o.inode_id as int) implies o.sound(v) && o.stays(
                    v,
                    w,
                ) by {
                    self.lemma_in_kids_at(v, below, 2, all.len() as int, k, o.inode_id as int);
                    assert(self.in_tree(v, depth, o.inode_id as int));
                }
                kid.lemma_tree_stays(v, w, below);
            }
            assert forall|k: int, x: int| 2 <= k < all.len() implies #[trigger] self.kid(v, k).in_tree(w, below, x)
                == self.kid(v, k).in_tree(v, below, x) by {
                assert(self.kid(w, k) == self.kid(v, k));
            }
            assert(self.same_kids(v, w, below));
            self.lemma_same_counts(v, w, below, 2);
            assert forall|x: int| self.in_tree(w, depth, x) == self.in_tree(v, depth, x) by {
                self.lemma_same_in_kids(v, w, below, 2, all.len() as int, x);
            }
            assert forall|k: int, x: int|
                2 <= k < self.entries(w).len() && #[trigger] self.kid(w, k).in_tree(
                    w,
                    below,
                    x,
                ) implies !self.in_kids(w, below, 2, k, x) by {
                assert(self.kid(w, k) == self.kid(v, k));
                assert(self.kid(v, k).in_tree(v, below, x));
                self.lemma_same_in_kids(v, w, below, 2, k, x);
            }
            assert forall|k: int| 2 <= k < self.entries(w).len() implies {
                &&& (#[trigger] self.kid(w, k)).whole(w, below)
                &&& lookup(self.bytes(w), self.entries(w)[k]) is Found
                &&& 1 <= lookup(self.bytes(w), self.entries(w)[k])->head.inode <= w.super_block.s_inodes_count
                &&& !self.kid(w, k).in_tree(w, below, self.inode_id as int)
                &&& self.kid(w, k).kind(w) == EXT2_FT_DIR ==> self.kid(w, k).leads_up(w, self.inode_id as int)
            } by {
                assert(self.kid(w, k) == self.kid(v, k));
            }
        } else {
            self.lemma_valid(v, w);
            if self.quiet(v, w) {
                self.lemma_left_alone(v, w);
            }
            assert(self.inode(w).i_mode == self.inode(v).i_mode);
            assert(self.kind(w) == self.kind(v));
        }
    }

    /// A whole tree all of whose files were left alone is the whole tree
    /// that it was.
    pub proof fn lemma_tree_kept(&self, v: FsView, w: FsView, depth: nat)
        requires
            v.wf(),
            v.same_geometry(w),
            self.whole(v, depth),
            forall|o: Inode|
                #[trigger] o.valid(v) && self.in_tree(v, depth, o.inode_id as int) ==> o.sound(v) && o.quiet(v, w),
        ensures
            self.whole(w, depth),
            self.sound(v),
            self.kind(w) == self.kind(v),
            self.inode(w) == self.inode(v),
            self.bytes(w) == self.bytes(v),
            self.tree_size(w, depth) == self.tree_size(v, depth),
            forall|x: int| self.in_tree(w, depth, x) == self.in_tree(v, depth, x),
    {
        assert(self.valid(v));
        assert(self.sound(v));
        assert(self.quiet(v, w));
        self.lemma_left_alone(v, w);
        self.lemma_tree_stays(v, w, depth);
    }

    /// The entry `..` of this directory leads to a directory outside its
    /// tree, whose inode is marked as used and which counts a link more
    /// than the one that is to go.
    pub open spec fn rooted(&self, v: FsView, depth: nat) -> bool {
        &&& lookup(self.bytes(v), dot_dot()) is Found
        &&& 1 <= lookup(self.bytes(v), dot_dot())->head.inode <= v.super_block.s_inodes_count
        &&& v.inode_used(self.parent_of(v).inode_id as int)
        &&& self.parent_of(v).inode(v).i_links_count >= 2
        &&& !self.in_tree(v, depth, self.parent_of(v).inode_id as int)
    }

    /// This is a whole directory, at most `depth` entries deep, under a
    /// directory outside its tree; the inodes of the tree and that of the
    /// directory above are among `s`, and the file system is tidy there.
    pub open spec fn can_fell(&self, v: FsView, depth: nat, s: Set<int>) -> bool {
        &&& tidy(v, s)
        &&& self.whole(v, depth)
        &&& self.kind(v) == EXT2_FT_DIR
        &&& self.rooted(v, depth)
        &&& s.contains(self.parent_of(v).inode_id as int)
        &&& forall|x: int| #[trigger] self.in_tree(v, depth, x) ==> s.contains(x)
    }

    /// `w` is `v` after all that was below this directory was taken out
    /// and the links of its entries `.` and `..` were taken back: the file
    /// system is tidy; the directory holds those two entries and no
    /// other, and counts one link; the directory above it counts a link
    /// less; every other inode of the tree is free, and counted as free;
    /// and every file outside the tree but the directory above was left
    /// alone.
    pub open spec fn felled(&self, v: FsView, w: FsView, depth: nat, s: Set<int>) -> bool {
        let up = self.parent_of(v);
        &&& tidy(w, s)
        &&& w.inode_used(self.inode_id as int)
        &&& self.inode(w).i_mode == self.inode(v).i_mode
        &&& tiled(self.bytes(w))
        &&& names(self.bytes(w)) == Some(seq![dot(), dot_dot()])
        &&& self.leads_as(v, w, dot_dot())
        &&& self.inode(w).i_links_count == 1
        &&& up.bytes(w) == up.bytes(v)
        &&& up.inode(w) == (crate::layout::DiskInode {
            i_links_count: (up.inode(v).i_links_count - 1) as u16,
            ..up.inode(v)
        })
        &&& forall|x: int| x != self.inode_id && #[trigger] self.in_tree(v, depth, x) ==> !w.inode_used(x)
        &&& forall|x: int|
            1 <= x <= v.super_block.s_inodes_count && !self.in_tree(v, depth, x) ==> #[trigger] w.inode_used(x)
                == v.inode_used(x)
        &&& w.super_block.s_free_inodes_count == v.super_block.s_free_inodes_count + self.tree_size(v, depth) - 1
        &&& forall|o: Inode|
            #[trigger] o.valid(v) && s.contains(o.inode_id as int) && v.inode_used(o.inode_id as int)
                && !self.in_tree(v, depth, o.inode_id as int) && o.inode_id != up.inode_id ==> o.quiet(v, w)
    }

    /// `cur` is `v` after the entries of this directory up to number
    /// `done` were taken out with all that was below them, but for `.` and
    /// `..`: the inodes of their trees are free, and every file outside
    /// these trees but the directory was left alone.
    pub open spec fn felling(&self, v: FsView, cur: FsView, done: int, depth: nat, s: Set<int>) -> bool {
        let all = self.entries(v);
        let below = (depth - 1) as nat;
        &&& tidy(cur, s)
        &&& cur.inode_used(self.inode_id as int)
        &&& self.inode(cur).i_mode == self.inode(v).i_mode
        &&& tiled(self.bytes(cur))
        &&& self.bytes(cur).len() == self.bytes(v).len()
        &&& names(self.bytes(cur)) == Some(all.subrange(0, 2) + all.subrange(done, all.len() as int))
        &&& self.inode(cur).i_links_count == 2 + self.subdirs(v, done)
        &&& self.leads_as(v, cur, dot_dot())
        &&& forall|k: int| done <= k < all.len() ==> self.leads_as(v, cur, #[trigger] all[k])
        &&& forall|x: int| #[trigger] self.in_kids(v, below, 2, done, x) ==> !cur.inode_used(x)
        &&& forall|x: int|
            1 <= x <= v.super_block.s_inodes_count && !self.in_kids(v, below, 2, done, x) ==> #[trigger] cur.inode_used(
                x,
            ) == v.inode_used(x)
        &&& cur.super_block.s_free_inodes_count == v.super_block.s_free_inodes_count + self.kids_size(v, below, 2)
            - self.kids_size(v, below, done)
        &&& forall|o: Inode|
            #[trigger] o.valid(v) && s.contains(o.inode_id as int) && v.inode_used(o.inode_id as int) && o.inode_id
                != self.inode_id && !self.in_kids(v, below, 2, done, o.inode_id as int) ==> o.quiet(v, cur)
    }

    /// A whole directory that can be felled and the directory above it
    /// are among the inodes that the file system is tidy among: they are
    /// sound and apart.
    pub proof fn lemma_fell_members(&self, v: FsView, depth: nat, s: Set<int>)
        requires
            v.wf(),
            self.can_fell(v, depth, s),
        ensures
            s.contains(self.inode_id as int),
            s.contains(self.parent_of(v).inode_id as int),
            self.sound(v),
            self.parent_of(v).valid(v),
            self.parent_of(v).sound(v),
            self.apart_from(self.parent_of(v), v),
    {
        let up = self.parent_of(v);
        assert(self.in_tree(v, depth, self.inode_id as int));
        v.lemma_inode_pos(up.inode_id as int);
        assert(up.valid(v));
        assert(self.valid(v));
    }

    /// The tree of an entry of a whole directory that can be felled is
    /// among the inodes that the file system is tidy among.
    pub proof fn lemma_kid_members(&self, v: FsView, depth: nat, s: Set<int>, k: int, x: int)
        requires
            self.can_fell(v, depth, s),
            2 <= k < self.entries(v).len(),
            self.kid(v, k).in_tree(v, (depth - 1) as nat, x),
        ensures
            s.contains(x),
            self.in_tree(v, depth, x),
            1 <= x <= v.super_block.s_inodes_count,
            v.inode_used(x),
            x != self.inode_id,
            x != self.parent_of(v).inode_id,
    {
        let below = (depth - 1) as nat;
        self.lemma_in_kids_at(v, below, 2, self.entries(v).len() as int, k, x);
        assert(self.in_tree(v, depth, x));
        assert(self.kid(v, k).whole(v, below));
        self.kid(v, k).lemma_tree_used(v, below, x);
    }

    /// Before any entry is taken out of a whole directory, none is.
    pub proof fn lemma_felling_start(&self, v: FsView, depth: nat, s: Set<int>)
        requires
            v.wf(),
            self.can_fell(v, depth, s),
        ensures
            self.felling(v, v, 2, depth, s),
    {
        let all = self.entries(v);
        assert(all.subrange(0, 2) + all.subrange(2, all.len() as int) =~= all);
        assert forall|k: int| 2 <= k < all.len() implies self.leads_as(v, v, #[trigger] all[k]) by {
            assert(self.kid(v, k).whole(v, (depth - 1) as nat));
        }
        assert forall|o: Inode|
            #[trigger] o.valid(v) && s.contains(o.inode_id as int) && v.inode_used(
                o.inode_id as int,
            ) implies o.quiet(v, v) by {
            assert(o.sound(v));
            o.lemma_quiet_same(v);
        }
    }

    /// A sound file was left alone where nothing has changed.
    pub proof fn lemma_quiet_same(&self, v: FsView)
        requires
            v.wf(),
            self.sound(v),
        ensures
            self.quiet(v, v),
    {
        self.lemma_valid(v, v);
        crate::sound::lemma_meta_quiet(v, v, self.pos(), blocks_for(self.inode(v).i_size as int));
    }

    /// While a whole directory is taken apart, the tree of the next entry
    /// is the whole tree that it was, and the entry leads to it; where it
    /// is a directory, its `..` leads back here.
    pub proof fn lemma_felling_kid(&self, v: FsView, cur: FsView, done: int, depth: nat, s: Set<int>)
        requires
            v.wf(),
            v.same_geometry(cur),
            self.can_fell(v, depth, s),
            self.felling(v, cur, done, depth, s),
            2 <= done < self.entries(v).len(),
        ensures
            self.kid(v, done).whole(cur, (depth - 1) as nat),
            self.kid(v, done).sound(v),
            self.kid(v, done).kind(cur) == self.kid(v, done).kind(v),
            self.kid(v, done).inode(cur) == self.kid(v, done).inode(v),
            self.kid(v, done).bytes(cur) == self.kid(v, done).bytes(v),
            self.kid(v, done).tree_size(cur, (depth - 1) as nat) == self.kid(v, done).tree_size(
                v,
                (depth - 1) as nat,
            ),
            forall|x: int|
                #[trigger] self.kid(v, done).in_tree(cur, (depth - 1) as nat, x) == self.kid(v, done).in_tree(
                    v,
                    (depth - 1) as nat,
                    x,
                ),
            self.child_of(cur, self.entries(v)[done]) == self.kid(v, done),
            self.kid(v, done).kind(v) == EXT2_FT_DIR ==> self.kid(v, done).can_fell(cur, (depth - 1) as nat, s),
            s.contains(self.inode_id as int),
            s.contains(self.kid(v, done).inode_id as int),
            self.kid(v, done).kind(v) == EXT2_FT_DIR ==> self.kid(v, done).parent_of(cur).inode_id == self.inode_id,
    {
        let below = (depth - 1) as nat;
        let all = self.entries(v);
        let kid = self.kid(v, done);
        v.lemma_same_geometry(cur);
        assert(kid.whole(v, below));
        assert forall|o: Inode|
            #[trigger] o.valid(v) && kid.in_tree(v, below, o.inode_id as int) implies o.sound(v) && o.quiet(
            v,
            cur,
        ) by {
            self.lemma_kid_members(v, depth, s, done, o.inode_id as int);
            assert(!self.in_kids(v, below, 2, done, o.inode_id as int));
        }
        kid.lemma_tree_kept(v, cur, below);
        assert(self.leads_as(v, cur, all[done]));
        assert(kid.valid(cur));
        assert(self.child_of(cur, all[done]) == kid);
        self.lemma_fell_members(v, depth, s);
        assert(kid.in_tree(v, below, kid.inode_id as int));
        self.lemma_kid_members(v, depth, s, done, kid.inode_id as int);
        if kid.kind(v) == EXT2_FT_DIR {
            assert(kid.leads_up(v, self.inode_id as int));
            let up = kid.parent_of(cur);
            assert(up.inode_id == self.inode_id);
            assert(self.valid(cur));
            assert(up.pos() == self.pos());
            assert(up.inode(cur) == self.inode(cur));
            assert forall|x: int| #[trigger] kid.in_tree(cur, below, x) implies s.contains(x) by {
                assert(kid.in_tree(v, below, x));
                self.lemma_kid_members(v, depth, s, done, x);
            }
            assert(kid.rooted(cur, below));
        }
    }

    /// `mid` is `cur` after all that was below this file was taken out and,
    /// where it is a directory, the links of its entries `.` and `..` were
    /// taken back.
    pub open spec fn cleared(&self, cur: FsView, mid: FsView, depth: nat, s: Set<int>) -> bool {
        if self.kind(cur) != EXT2_FT_DIR {
            mid == cur
        } else {
            self.felled(cur, mid, depth, s)
        }
    }

    /// While a whole directory is taken apart, the next entry can be taken
    /// out once all below it is, and its file then has one link.
    pub proof fn lemma_felling_can(&self, v: FsView, cur: FsView, mid: FsView, done: int, depth: nat, s: Set<int>)
        requires
            v.wf(),
            cur.wf(),
            v.same_geometry(cur),
            cur.same_geometry(mid),
            self.can_fell(v, depth, s),
            self.felling(v, cur, done, depth, s),
            2 <= done < self.entries(v).len(),
            self.kid(v, done).cleared(cur, mid, (depth - 1) as nat, s),
        ensures
            tidy(mid, s),
            self.can_unlink(mid, self.entries(v)[done]),
            self.child_of(mid, self.entries(v)[done]) == self.kid(v, done),
            self.kid(v, done).inode(mid).i_links_count == 1,
            self.bytes(mid) == self.bytes(cur),
            self.inode(mid).i_mode == self.inode(cur).i_mode,
            self.inode(mid).i_links_count == self.inode(cur).i_links_count - if self.kid(v, done).kind(v)
                == EXT2_FT_DIR {
                1int
            } else {
                0int
            },
            mid.inode_used(self.inode_id as int),
    {
        let below = (depth - 1) as nat;
        let all = self.entries(v);
        let name = all[done];
        let kid = self.kid(v, done);
        self.lemma_felling_kid(v, cur, done, depth, s);
        v.lemma_same_geometry(cur);
        cur.lemma_same_geometry(mid);
        assert(self.valid(cur));
        assert(self.valid(mid));
        assert(kid.valid(mid));
        if kid.kind(v) == EXT2_FT_DIR {
            let up = kid.parent_of(cur);
            assert(up.pos() == self.pos());
            assert(up.bytes(mid) == self.bytes(mid));
            assert(up.bytes(cur) == self.bytes(cur));
            assert(up.inode(mid) == self.inode(mid));
            assert(up.inode(cur) == self.inode(cur));
            assert(!kid.in_tree(cur, below, self.inode_id as int));
            assert(mid.inode_used(self.inode_id as int) == cur.inode_used(self.inode_id as int));
        }
        assert(self.sound(mid));
        assert(kid.sound(mid));
        assert(self.apart_from(kid, mid));
        let content = self.bytes(mid);
        let now = all.subrange(0, 2) + all.subrange(done, all.len() as int);
        assert(now[0] == all[0]);
        assert(name != all[0] && name != all[1]);
        assert(crate::dir::has_entry(content, 0));
        assert(crate::dir::entry_name(content, 0) == now[0]);
        assert(self.leads_as(v, cur, name));
        crate::dir::lemma_found_behind(content, name, 0, 0, 0);
        crate::dir::lemma_found_reach(content, name, 0, 0, 0);
        assert(self.child_of(mid, name) == kid);
    }

    /// An inode is in the trees of the entries up to and with number `to`
    /// where it is in those of the entries before it or in that of the
    /// entry.
    pub proof fn lemma_in_kids_last(&self, v: FsView, depth: nat, from: int, to: int, x: int)
        requires
            from <= to,
        ensures
            self.in_kids(v, depth, from, to + 1, x) == (self.in_kids(v, depth, from, to, x) || self.kid(v, to).in_tree(
                v,
                depth,
                x,
            )),
        decreases to - from,
    {
        if from < to {
            self.lemma_in_kids_last(v, depth, from + 1, to, x);
        } else {
            assert(!self.in_kids(v, depth, from + 1, to + 1, x));
        }
    }

    /// While a whole directory is taken apart, taking the next entry out
    /// with all below it leaves alone every file outside the trees that
    /// are gone by then, but for the directory.
    pub proof fn lemma_felling_spares(
        &self,
        other: Inode,
        v: FsView,
        cur: FsView,
        mid: FsView,
        next: FsView,
        done: int,
        depth: nat,
        s: Set<int>,
    )
        requires
            v.wf(),
            cur.wf(),
            mid.wf(),
            v.same_geometry(cur),
            cur.same_geometry(mid),
            mid.same_geometry(next),
            self.can_fell(v, depth, s),
            self.felling(v, cur, done, depth, s),
            2 <= done < self.entries(v).len(),
            self.kid(v, done).cleared(cur, mid, (depth - 1) as nat, s),
            self.unlinked(mid, next, self.entries(v)[done]),
            other.valid(v),
            s.contains(other.inode_id as int),
            v.inode_used(other.inode_id as int),
            other.inode_id != self.inode_id,
            !self.in_kids(v, (depth - 1) as nat, 2, done + 1, other.inode_id as int),
        ensures
            other.quiet(v, next),
    {
        let below = (depth - 1) as nat;
        let name = self.entries(v)[done];
        let kid = self.kid(v, done);
        let x = other.inode_id as int;
        self.lemma_felling_kid(v, cur, done, depth, s);
        self.lemma_felling_can(v, cur, mid, done, depth, s);
        self.lemma_in_kids_last(v, below, 2, done, x);
        v.lemma_same_geometry(cur);
        cur.lemma_same_geometry(mid);
        assert(other.sound(v));
        assert(other.quiet(v, cur));
        other.lemma_left_alone(v, cur);
        assert(other.valid(cur));
        assert(!kid.in_tree(cur, below, x));
        if kid.kind(v) == EXT2_FT_DIR {
            assert(kid.parent_of(cur).inode_id == self.inode_id);
            assert(other.quiet(cur, mid));
            other.lemma_left_alone(cur, mid);
            other.lemma_quiet_twice(v, cur, mid);
        }
        assert(other.quiet(v, mid));
        assert(other.sound(mid));
        assert(other.valid(mid));
        assert(self.valid(mid));
        assert(kid.valid(mid));
        assert(kid.in_tree(v, below, kid.inode_id as int));
        assert(self.apart_from(other, mid));
        assert(kid.apart_from(other, mid));
        assert(self.spared_all(kid, mid, next));
        let left = other.quiet(mid, next);
        assert(left);
        other.lemma_quiet_twice(v, mid, next);
    }

    /// While a whole directory is taken apart, taking the next entry out
    /// with all below it frees the inodes of its tree and leaves the marks
    /// of the others as they were.
    pub proof fn lemma_felling_marks(
        &self,
        x: int,
        v: FsView,
        cur: FsView,
        mid: FsView,
        next: FsView,
        done: int,
        depth: nat,
        s: Set<int>,
    )
        requires
            v.wf(),
            cur.wf(),
            mid.wf(),
            v.same_geometry(cur),
            cur.same_geometry(mid),
            mid.same_geometry(next),
            self.can_fell(v, depth, s),
            self.felling(v, cur, done, depth, s),
            2 <= done < self.entries(v).len(),
            self.kid(v, done).cleared(cur, mid, (depth - 1) as nat, s),
            self.unlinked(mid, next, self.entries(v)[done]),
        ensures
            self.in_kids(v, (depth - 1) as nat, 2, done + 1, x) ==> !next.inode_used(x),
            1 <= x <= v.super_block.s_inodes_count && !self.in_kids(v, (depth - 1) as nat, 2, done + 1, x)
                ==> next.inode_used(x) == v.inode_used(x),
    {
        let below = (depth - 1) as nat;
        let name = self.entries(v)[done];
        let kid = self.kid(v, done);
        self.lemma_felling_kid(v, cur, done, depth, s);
        self.lemma_felling_can(v, cur, mid, done, depth, s);
        self.lemma_in_kids_last(v, below, 2, done, x);
        assert(self.spared_all(kid, mid, next));
        assert(kid.valid(v));
        assert(kid.in_tree(v, below, kid.inode_id as int));
        if kid.in_tree(v, below, x) {
            kid.lemma_tree_used(v, below, x);
            assert(kid.in_tree(cur, below, x));
            if x != kid.inode_id {
                assert(kid.kind(v) == EXT2_FT_DIR);
                assert(!mid.inode_used(x));
                assert(next.inode_used(x) == mid.inode_used(x));
            }
        } else if self.in_kids(v, below, 2, done, x) {
            let k = self.lemma_in_kids_which(v, below, 2, done, x);
            assert(self.kid(v, k).whole(v, below));
            self.kid(v, k).lemma_tree_used(v, below, x);
            assert(!cur.inode_used(x));
            assert(!kid.in_tree(cur, below, x));
            assert(mid.inode_used(x) == cur.inode_used(x));
            assert(next.inode_used(x) == mid.inode_used(x));
        } else if 1 <= x <= v.super_block.s_inodes_count {
            assert(cur.inode_used(x) == v.inode_used(x));
            assert(!kid.in_tree(cur, below, x));
            assert(mid.inode_used(x) == cur.inode_used(x));
            assert(next.inode_used(x) == mid.inode_used(x));
        }
    }

    /// While a whole directory is taken apart, taking the next entry out
    /// with all below it goes a step on.
    pub proof fn lemma_felling_step(&self, v: FsView, cur: FsView, mid: FsView, next: FsView, done: int, depth: nat, s: Set<int>)
        requires
            v.wf(),
            cur.wf(),
            mid.wf(),
            v.same_geometry(cur),
            cur.same_geometry(mid),
            mid.same_geometry(next),
            self.can_fell(v, depth, s),
            self.felling(v, cur, done, depth, s),
            2 <= done < self.entries(v).len(),
            self.kid(v, done).cleared(cur, mid, (depth - 1) as nat, s),
            self.unlinked(mid, next, self.entries(v)[done]),
        ensures
            self.felling(v, next, done + 1, depth, s),
    {
        let below = (depth - 1) as nat;
        let all = self.entries(v);
        let n = all.len() as int;
        let name = all[done];
        let kid = self.kid(v, done);
        self.lemma_felling_kid(v, cur, done, depth, s);
        self.lemma_felling_can(v, cur, mid, done, depth, s);
        self.lemma_tidy_unlinked(mid, next, name, s);
        let content = self.bytes(mid);
        crate::dir::lemma_unlinked(content, name, 0, 0, 0);
        crate::dir::lemma_place(content, name, 0, 0, 0);
        let now = all.subrange(0, 2) + all.subrange(done, n);
        assert(now[2] == name);
        assert(now[0] == all[0] && now[1] == all[1]);
        crate::dir::lemma_skip_at(content, name, 0, 2);
        assert(now.remove(2) =~= all.subrange(0, 2) + all.subrange(done + 1, n));
        assert(self.spared_all(kid, mid, next));
        assert(next.inode_used(self.inode_id as int) == mid.inode_used(self.inode_id as int));
        self.lemma_stays(mid, next, name, dot_dot());
        assert(self.leads_as(v, next, dot_dot()));
        assert forall|k: int| done + 1 <= k < n implies self.leads_as(v, next, #[trigger] all[k]) by {
            assert(self.leads_as(v, cur, all[k]));
            self.lemma_stays(mid, next, name, all[k]);
        }
        assert forall|x: int| #[trigger] self.in_kids(v, below, 2, done + 1, x) implies !next.inode_used(x) by {
            self.lemma_felling_marks(x, v, cur, mid, next, done, depth, s);
        }
        assert forall|x: int|
            1 <= x <= v.super_block.s_inodes_count && !self.in_kids(
                v,
                below,
                2,
                done + 1,
                x,
            ) implies #[trigger] next.inode_used(x) == v.inode_used(x) by {
            self.lemma_felling_marks(x, v, cur, mid, next, done, depth, s);
        }
        assert forall|o: Inode|
            #[trigger] o.valid(v) && s.contains(o.inode_id as int) && v.inode_used(o.inode_id as int) && o.inode_id
                != self.inode_id && !self.in_kids(v, below, 2, done + 1, o.inode_id as int) implies o.quiet(
            v,
            next,
        ) by {
            self.lemma_felling_spares(o, v, cur, mid, next, done, depth, s);
        }
        assert(self.subdirs(v, done) == (if kid.kind(v) == EXT2_FT_DIR {
            1nat
        } else {
            0nat
        }) + self.subdirs(v, done + 1));
        assert(self.kids_size(v, below, done) == kid.tree_size(v, below) + self.kids_size(v, below, done + 1));
        assert(kid.kind(v) != EXT2_FT_DIR ==> kid.tree_size(v, below) == 1);
    }

    /// Once every entry but `.` and `..` is taken out of a whole directory
    /// with all that was below it, the directory is empty, under the
    /// directory it was under, which is as it was.
    pub proof fn lemma_felling_end(&self, v: FsView, c: FsView, depth: nat, s: Set<int>)
        requires
            v.wf(),
            v.same_geometry(c),
            self.can_fell(v, depth, s),
            self.felling(v, c, self.entries(v).len() as int, depth, s),
        ensures
            self.is_empty_dir(c),
            self.parent_of(c) == self.parent_of(v),
            self.parent_of(v).quiet(v, c),
            self.parent_of(v).inode(c) == self.parent_of(v).inode(v),
            self.parent_of(v).bytes(c) == self.parent_of(v).bytes(v),
            self.inode(c).i_links_count == 2,
    {
        let all = self.entries(v);
        let n = all.len() as int;
        let up = self.parent_of(v);
        v.lemma_same_geometry(c);
        assert(all.subrange(0, 2) + all.subrange(n, n) =~= seq![dot(), dot_dot()]);
        assert(self.subdirs(v, n) == 0);
        self.lemma_fell_members(v, depth, s);
        assert(up.inode_id != self.inode_id);
        assert(!self.in_kids(v, (depth - 1) as nat, 2, n, up.inode_id as int));
        assert(up.quiet(v, c));
        up.lemma_left_alone(v, c);
        assert(self.leads_as(v, c, dot_dot()));
        assert(self.parent_of(c) == up);
        assert(self.valid(c));
        assert(up.valid(c));
        assert(self.sound(c));
        assert(self.apart_from(up, c));
    }

    /// Taking a whole directory apart and then taking back the links of
    /// its entries `.` and `..` leaves it felled.
    pub proof fn lemma_felled(&self, v: FsView, c: FsView, w: FsView, depth: nat, s: Set<int>)
        requires
            v.wf(),
            c.wf(),
            v.same_geometry(c),
            c.same_geometry(w),
            self.can_fell(v, depth, s),
            self.felling(v, c, self.entries(v).len() as int, depth, s),
            self.dots_taken(c, w),
        ensures
            self.felled(v, w, depth, s),
    {
        let all = self.entries(v);
        let n = all.len() as int;
        let below = (depth - 1) as nat;
        let up = self.parent_of(v);
        self.lemma_felling_end(v, c, depth, s);
        self.lemma_fell_members(v, depth, s);
        self.lemma_tidy_dots(c, w, s);
        v.lemma_same_geometry(c);
        c.lemma_same_geometry(w);
        assert(self.kids_size(v, below, n) == 0);
        assert forall|x: int| x != self.inode_id && #[trigger] self.in_tree(v, depth, x) implies !w.inode_used(x) by {
            let k = self.lemma_in_kids_which(v, below, 2, n, x);
            assert(self.kid(v, k).whole(v, below));
            self.kid(v, k).lemma_tree_used(v, below, x);
            assert(!c.inode_used(x));
        }
        assert forall|x: int|
            1 <= x <= v.super_block.s_inodes_count && !self.in_tree(v, depth, x) implies #[trigger] w.inode_used(x)
            == v.inode_used(x) by {
            assert(c.inode_used(x) == v.inode_used(x));
        }
        self.lemma_fell_members(v, depth, s);
        assert forall|o: Inode|
            #[trigger] o.valid(v) && s.contains(o.inode_id as int) && v.inode_used(o.inode_id as int)
                && !self.in_tree(v, depth, o.inode_id as int) && o.inode_id != up.inode_id implies o.quiet(v, w) by {
            assert(o.sound(v));
            assert(o.quiet(v, c));
            o.lemma_left_alone(v, c);
            assert(o.valid(c));
            assert(self.valid(c));
            assert(up.valid(c));
            assert(self.apart_from(o, c));
            assert(up.apart_from(o, c));
            let left = o.quiet(c, w);
            assert(left);
            o.lemma_quiet_twice(v, c, w);
        }
    }

    /// The inodes of this directory and of the tree behind its entry
    /// `name`.
    pub open spec fn tree_set(&self, v: FsView, name: Seq<u8>) -> Set<int> {
        Set::new(
            |x: int|
                x == self.inode_id || self.child_of(v, name).in_tree(v, v.super_block.s_inodes_count as nat, x),
        )
    }

    /// The entry `name` of this sound directory can be taken out and leads
    /// to a whole directory, whose entry `..` leads back here; and the
    /// file system is tidy among the inodes of the two.
    pub open spec fn can_remove_tree(&self, v: FsView, name: Seq<u8>) -> bool {
        let child = self.child_of(v, name);
        &&& self.can_unlink(v, name)
        &&& child.can_fell(v, v.super_block.s_inodes_count as nat, self.tree_set(v, name))
        &&& child.parent_of(v).inode_id == self.inode_id
    }

    /// `w` is `v` after the entry `name`, which led to a whole directory,
    /// was taken out of this directory with all that was below it: the
    /// names in the directory are those before without the entry's; the
    /// directory is sound, stamped, and counts a link less; every inode of
    /// the tree is free, every other is marked as it was, and as many
    /// inodes more are counted as free as the tree had; and the file
    /// system is tidy among the inodes of the directory and the tree.
    pub open spec fn tree_removed(&self, v: FsView, w: FsView, name: Seq<u8>) -> bool {
        let found = lookup(self.bytes(v), name);
        let child = self.child_of(v, name);
        let depth = v.super_block.s_inodes_count as nat;
        &&& tidy(w, self.tree_set(v, name))
        &&& self.dir_sound(w)
        &&& self.bytes(w) == crate::dir::reaching(self.bytes(v), found->prev_offset, found->head.rec_len)
        &&& names(self.bytes(w)) == Some(crate::dir::names_skip(self.bytes(v), 0, found->offset))
        &&& self.inode(w) == (crate::layout::DiskInode {
            i_links_count: (self.inode(v).i_links_count - 1) as u16,
            i_atime: v.time,
            i_mtime: v.time,
            ..self.inode(v)
        })
        &&& forall|x: int| #[trigger] child.in_tree(v, depth, x) ==> !w.inode_used(x)
        &&& forall|x: int|
            1 <= x <= v.super_block.s_inodes_count && !child.in_tree(v, depth, x) ==> #[trigger] w.inode_used(x)
                == v.inode_used(x)
        &&& w.super_block.s_free_inodes_count == v.super_block.s_free_inodes_count + child.tree_size(v, depth)
    }

    /// Once a whole directory is felled, its entry can be taken out of
    /// the directory above it as that of a file with one link.
    pub proof fn lemma_tree_can(&self, v: FsView, mid: FsView, name: Seq<u8>)
        requires
            v.wf(),
            self.valid(v),
            v.same_geometry(mid),
            self.can_remove_tree(v, name),
            self.child_of(v, name).felled(v, mid, v.super_block.s_inodes_count as nat, self.tree_set(v, name)),
        ensures
            self.can_unlink(mid, name),
            self.bytes(mid) == self.bytes(v),
            self.inode(mid) == (crate::layout::DiskInode {
                i_links_count: (self.inode(v).i_links_count - 1) as u16,
                ..self.inode(v)
            }),
            self.child_of(mid, name) == self.child_of(v, name),
            self.child_of(v, name).inode(mid).i_links_count == 1,
    {
        let depth = v.super_block.s_inodes_count as nat;
        let head = lookup(self.bytes(v), name)->head;
        let child = self.child_of(v, name);
        let up = child.parent_of(v);
        v.lemma_same_geometry(mid);
        v.lemma_inode_pos(self.inode_id as int);
        assert(up.pos() == self.pos());
        assert(up.block_id == self.block_id && up.block_offset == self.block_offset);
        assert(self.inode(mid) == up.inode(mid));
        assert(self.bytes(mid) == up.bytes(mid));
        assert(self.valid(mid));
        assert(child.valid(mid));
        assert(!child.in_tree(v, depth, self.inode_id as int));
        assert(mid.inode_used(self.inode_id as int) == v.inode_used(self.inode_id as int));
        assert(self.sound(mid));
        assert(child.sound(mid));
        assert(child == Self::target_of(mid, head));
        assert(self.apart_from(child, mid));
    }

    /// Felling a whole directory and then taking its entry out is the
    /// removal of its tree.
    pub proof fn lemma_tree_removed(&self, v: FsView, mid: FsView, w: FsView, name: Seq<u8>)
        requires
            v.wf(),
            mid.wf(),
            self.valid(v),
            v.same_geometry(mid),
            mid.same_geometry(w),
            mid.time == v.time,
            self.can_remove_tree(v, name),
            self.child_of(v, name).felled(v, mid, v.super_block.s_inodes_count as nat, self.tree_set(v, name)),
            self.unlinked(mid, w, name),
        ensures
            self.tree_removed(v, w, name),
    {
        let depth = v.super_block.s_inodes_count as nat;
        let child = self.child_of(v, name);
        self.lemma_tree_can(v, mid, name);
        self.lemma_tidy_unlinked(mid, w, name, self.tree_set(v, name));
        assert(self.spared_all(child, mid, w));
        assert(child.valid(v));
        assert forall|x: int| #[trigger] child.in_tree(v, depth, x) implies !w.inode_used(x) by {
            child.lemma_tree_used(v, depth, x);
            if x != child.inode_id {
                assert(!mid.inode_used(x));
                assert(w.inode_used(x) == mid.inode_used(x));
            }
        }
        assert forall|x: int|
            1 <= x <= v.super_block.s_inodes_count && !child.in_tree(v, depth, x) implies #[trigger] w.inode_used(x)
            == v.inode_used(x) by {
            assert(mid.inode_used(x) == v.inode_used(x));
            assert(w.inode_used(x) == mid.inode_used(x));
        }
    }

    /// Making a file in a sound directory leaves a file system tidy that
    /// was tidy among inodes of which the directory was one, now among
    /// these and the inode of the new file; and every other file among
    /// them was left alone.
    pub proof fn lemma_created_tidy(
        &self,
        child: Inode,
        v: FsView,
        w: FsView,
        name: Seq<u8>,
        file_type: u16,
        s: Set<int>,
    )
        requires
            v.wf(),
            v.same_geometry(w),
            self.dir_sound(v),
            tidy(v, s),
            s.contains(self.inode_id as int),
            self.created(v, w, name, file_type, child),
        ensures
            tidy(w, s.insert(child.inode_id as int)),
            forall|o: Inode|
                #[trigger] o.valid(v) && s.contains(o.inode_id as int) && v.inode_used(o.inode_id as int)
                    && o.inode_id != self.inode_id ==> o.sound(v) && o.quiet(v, w),
    {
        let t = s.insert(child.inode_id as int);
        v.lemma_same_geometry(w);
        assert forall|o: Inode|
            #[trigger] o.valid(v) && s.contains(o.inode_id as int) && v.inode_used(o.inode_id as int) && o.inode_id
                != self.inode_id implies o.sound(v) && o.quiet(v, w) by {
            assert(self.valid(v));
            assert(self.apart_from(o, v));
            let left = o.quiet(v, w);
            assert(left);
        }
        assert forall|a: Inode|
            #[trigger] a.valid(w) && t.contains(a.inode_id as int) && w.inode_used(
                a.inode_id as int,
            ) implies a.sound(w) by {
            self.lemma_created_one(child, a, v, w, name, file_type, s);
        }
        assert forall|a: Inode, b: Inode|
            #[trigger] a.valid(w) && #[trigger] b.valid(w) && t.contains(a.inode_id as int) && t.contains(
                b.inode_id as int,
            ) && w.inode_used(a.inode_id as int) && w.inode_used(b.inode_id as int) && a.inode_id
                != b.inode_id implies a.apart_from(b, w) by {
            self.lemma_created_one(child, a, v, w, name, file_type, s);
            self.lemma_created_one(child, b, v, w, name, file_type, s);
            let a_new = a.inode_id == self.inode_id || a.inode_id == child.inode_id;
            let b_new = b.inode_id == self.inode_id || b.inode_id == child.inode_id;
            if a_new && b_new {
                assert(self.apart_from(child, w));
                lemma_apart_sym(
                    w,
                    self.pos(),
                    blocks_for(self.inode(w).i_size as int),
                    child.pos(),
                    blocks_for(child.inode(w).i_size as int),
                );
            } else if a_new {
                assert(self.apart_from(b, w) && child.apart_from(b, w));
            } else if b_new {
                assert(self.apart_from(a, w) && child.apart_from(a, w));
                lemma_apart_sym(
                    w,
                    self.pos(),
                    blocks_for(self.inode(w).i_size as int),
                    a.pos(),
                    blocks_for(a.inode(w).i_size as int),
                );
                lemma_apart_sym(
                    w,
                    child.pos(),
                    blocks_for(child.inode(w).i_size as int),
                    a.pos(),
                    blocks_for(a.inode(w).i_size as int),
                );
            } else {
                a.lemma_both_alone(b, v, w);
            }
        }
    }

    /// What making a file in a sound directory does to a file of a tidy
    /// file system whose inode is marked as used afterwards: the file is
    /// sound; and where it is neither the directory nor the new file, it
    /// was left alone, and both are apart from it.
    pub proof fn lemma_created_one(
        &self,
        child: Inode,
        a: Inode,
        v: FsView,
        w: FsView,
        name: Seq<u8>,
        file_type: u16,
        s: Set<int>,
    )
        requires
            v.wf(),
            v.same_geometry(w),
            self.dir_sound(v),
            tidy(v, s),
            s.contains(self.inode_id as int),
            self.created(v, w, name, file_type, child),
            a.valid(w),
            s.insert(child.inode_id as int).contains(a.inode_id as int),
            w.inode_used(a.inode_id as int),
        ensures
            a.sound(w),
            a.inode_id != self.inode_id && a.inode_id != child.inode_id ==> a.sound(v) && a.quiet(v, w)
                && self.apart_from(a, w) && child.apart_from(a, w),
    {
        v.lemma_same_geometry(w);
        assert(a.valid(v));
        assert(self.valid(v));
        if a.inode_id == child.inode_id {
            assert(a.pos() == child.pos());
        } else if a.inode_id == self.inode_id {
            assert(a.pos() == self.pos());
        } else {
            assert(v.inode_used(a.inode_id as int));
            assert(a.sound(v));
            assert(self.apart_from(a, v));
            let left = a.quiet(v, w);
            assert(left && self.apart_from(a, w) && child.apart_from(a, w));
            a.lemma_left_alone(v, w);
        }
    }

    /// A directory that was just made is a whole tree of one inode under
    /// the directory it was made in, and can be felled: where the file
    /// system was tidy among inodes of which that directory was one, and
    /// the directory counted a link.
    pub proof fn lemma_dir_made(
        &self,
        child: Inode,
        v: FsView,
        w: FsView,
        name: Seq<u8>,
        file_type: u16,
        depth: nat,
        s: Set<int>,
    )
        requires
            v.wf(),
            v.same_geometry(w),
            self.dir_sound(v),
            self.inode(v).i_links_count >= 1,
            tidy(v, s),
            s.contains(self.inode_id as int),
            file_type & crate::layout::EXT2_S_IFMT == crate::layout::EXT2_S_IFDIR,
            self.created(v, w, name, file_type, child),
            depth >= 1,
        ensures
            child.can_fell(w, depth, s.insert(child.inode_id as int)),
            child.parent_of(w).inode_id == self.inode_id,
            child.tree_size(w, depth) == 1,
            forall|x: int| child.in_tree(w, depth, x) == (x == child.inode_id),
    {
        let t = s.insert(child.inode_id as int);
        self.lemma_created_tidy(child, v, w, name, file_type, s);
        crate::vfs::lemma_new_directory(*self, child, v, w, name, file_type);
        crate::vfs::lemma_dot_lookup(child.inode_id as u32, self.inode_id as u32);
        v.lemma_same_geometry(w);
        let all = child.entries(w);
        assert(all =~= seq![dot(), dot_dot()]);
        assert(dot() != dot_dot()) by {
            assert(dot().len() == 1);
            assert(dot_dot().len() == 2);
        }
        crate::dir::lemma_entry_bytes(child.inode_id as u32, dot(), EXT2_FT_DIR);
        crate::dir::lemma_entry_bytes(self.inode_id as u32, dot_dot(), EXT2_FT_DIR);
        assert(crate::dir::stored_name(dot()) =~= dot());
        assert(crate::dir::stored_name(dot_dot()) =~= dot_dot());
        assert(child.bytes(w).len() == 19);
        assert(child.subdirs(w, 2) == 0);
        assert(child.kids_size(w, (depth - 1) as nat, 2) == 0);
        assert forall|x: int| child.in_tree(w, depth, x) == (x == child.inode_id) by {
            assert(!child.in_kids(w, (depth - 1) as nat, 2, 2, x));
        }
        let up = child.parent_of(w);
        assert(up.inode_id == self.inode_id);
        assert(self.valid(w));
        assert(up.pos() == self.pos());
        assert(up.inode(w) == self.inode(w));
        assert(child.whole(w, depth));
        assert(child.rooted(w, depth));
    }

    /// The directory has in `w` the entries that it had in `v` and one
    /// more behind them; the entries that it had lead where they led, to
    /// files of the same kind with trees of the same inodes.
    pub open spec fn one_more(&self, v: FsView, w: FsView, depth: nat) -> bool {
        &&& self.entries(w).len() == self.entries(v).len() + 1
        &&& forall|k: int|
            2 <= k < self.entries(v).len() ==> {
                &&& self.kid(w, k) == (#[trigger] self.kid(v, k))
                &&& self.kid(v, k).kind(w) == self.kid(v, k).kind(v)
                &&& self.kid(v, k).tree_size(w, depth) == self.kid(v, k).tree_size(v, depth)
            }
        &&& forall|k: int, x: int|
            2 <= k < self.entries(v).len() ==> #[trigger] self.kid(v, k).in_tree(w, depth, x) == self.kid(
                v,
                k,
            ).in_tree(v, depth, x)
    }

    /// With one entry more, the directory counts the directories and the
    /// inodes behind its entries as before, and those behind the new one.
    pub proof fn lemma_one_more_counts(&self, v: FsView, w: FsView, depth: nat, from: int)
        requires
            self.one_more(v, w, depth),
            2 <= from <= self.entries(v).len(),
        ensures
            self.subdirs(w, from) == self.subdirs(v, from) + if self.kid(w, self.entries(v).len() as int).kind(w)
                == EXT2_FT_DIR {
                1nat
            } else {
                0nat
            },
            self.kids_size(w, depth, from) == self.kids_size(v, depth, from) + self.kid(
                w,
                self.entries(v).len() as int,
            ).tree_size(w, depth),
        decreases self.entries(v).len() - from,
    {
        let n = self.entries(v).len() as int;
        if from < n {
            assert(self.kid(w, from) == self.kid(v, from));
            self.lemma_one_more_counts(v, w, depth, from + 1);
        } else {
            assert(self.subdirs(w, n + 1) == 0);
            assert(self.kids_size(w, depth, n + 1) == 0);
            assert(self.subdirs(v, n) == 0);
            assert(self.kids_size(v, depth, n) == 0);
        }
    }

    /// With one entry more, the same inodes are in the trees of the
    /// entries that were there.
    pub proof fn lemma_one_more_in_kids(&self, v: FsView, w: FsView, depth: nat, from: int, to: int, x: int)
        requires
            self.one_more(v, w, depth),
            2 <= from,
            to <= self.entries(v).len(),
        ensures
            self.in_kids(w, depth, from, to, x) == self.in_kids(v, depth, from, to, x),
        decreases to - from,
    {
        if from < to {
            assert(self.kid(w, from) == self.kid(v, from));
            assert(self.kid(v, from).in_tree(w, depth, x) == self.kid(v, from).in_tree(v, depth, x));
            self.lemma_one_more_in_kids(v, w, depth, from + 1, to, x);
        }
    }

    /// Making a file in a whole directory that can be felled leaves the
    /// files behind its entries as they were, and puts the new file behind
    /// a new last entry, as a whole tree of one inode.
    pub proof fn lemma_grown_kids(
        &self,
        child: Inode,
        v: FsView,
        w: FsView,
        name: Seq<u8>,
        file_type: u16,
        depth: nat,
        s: Set<int>,
    )
        requires
            v.wf(),
            v.same_geometry(w),
            self.can_fell(v, depth, s),
            self.create_outcome(v, name, file_type) is None,
            name.len() <= 255,
            self.created(v, w, name, file_type, child),
            file_type & crate::layout::EXT2_S_IFMT == crate::layout::EXT2_S_IFDIR ==> depth >= 2,
        ensures
            tidy(w, s.insert(child.inode_id as int)),
            self.dir_sound(v),
            names(self.bytes(w)) == Some(self.entries(v).push(name)),
            forall|k: int| 0 <= k < self.entries(v).len() ==> self.entries(v)[k] != name,
            self.one_more(v, w, (depth - 1) as nat),
            forall|k: int|
                2 <= k < self.entries(v).len() ==> (#[trigger] self.kid(v, k)).whole(w, (depth - 1) as nat) && lookup(
                    self.bytes(w),
                    self.entries(v)[k],
                ) == lookup(self.bytes(v), self.entries(v)[k]) && self.kid(v, k).bytes(w) == self.kid(v, k).bytes(v),
            lookup(self.bytes(w), dot_dot()) == lookup(self.bytes(v), dot_dot()),
            self.parent_of(w) == self.parent_of(v),
            self.parent_of(v).inode(w) == self.parent_of(v).inode(v),
            w.inode_used(self.parent_of(v).inode_id as int),
            lookup(self.bytes(w), name) is Found,
            lookup(self.bytes(w), name)->head.inode == child.inode_id,
            self.kid(w, self.entries(v).len() as int).inode_id == child.inode_id,
            self.kid(w, self.entries(v).len() as int).whole(w, (depth - 1) as nat),
            self.kid(w, self.entries(v).len() as int).tree_size(w, (depth - 1) as nat) == 1,
            forall|x: int|
                #[trigger] self.kid(w, self.entries(v).len() as int).in_tree(w, (depth - 1) as nat, x) == (x
                    == child.inode_id),
            self.kid(w, self.entries(v).len() as int).kind(w) == EXT2_FT_DIR <==> file_type
                & crate::layout::EXT2_S_IFMT == crate::layout::EXT2_S_IFDIR,
            self.kid(w, self.entries(v).len() as int).kind(w) == EXT2_FT_DIR ==> self.kid(
                w,
                self.entries(v).len() as int,
            ).leads_up(w, self.inode_id as int),
    {
        let below = (depth - 1) as nat;
        let all = self.entries(v);
        let n = all.len() as int;
        let code = crate::layout::file_code_of(file_type);
        let id = child.inode_id as u32;
        let before = self.bytes(v);
        let is_dir = file_type & crate::layout::EXT2_S_IFMT == crate::layout::EXT2_S_IFDIR;
        self.lemma_fell_members(v, depth, s);
        self.lemma_created_tidy(child, v, w, name, file_type, s);
        v.lemma_same_geometry(w);
        assert(crate::dir::stored_name(name) =~= name);
        crate::dir::lemma_appended(before, id, name, code, 0, name, 0, 0);
        crate::dir::lemma_appended(before, id, name, code, 0, dot_dot(), 0, 0);
        crate::dir::lemma_entry_bytes(id, name, code);
        assert forall|k: int| 0 <= k < n implies all[k] != name by {
            crate::dir::lemma_missing_name(before, name, 0, 0, 0, k);
        }
        // the directory above
        let up = self.parent_of(v);
        assert(up.inode_id != self.inode_id);
        assert(up.quiet(v, w));
        up.lemma_left_alone(v, w);
        assert(self.parent_of(w) == up);
        // the files that were there
        assert forall|k: int| 2 <= k < n implies {
            &&& self.kid(w, k) == (#[trigger] self.kid(v, k))
            &&& self.kid(v, k).whole(w, below)
            &&& self.kid(v, k).kind(w) == self.kid(v, k).kind(v)
            &&& self.kid(v, k).tree_size(w, below) == self.kid(v, k).tree_size(v, below)
            &&& lookup(self.bytes(w), all[k]) == lookup(self.bytes(v), all[k])
            &&& self.kid(v, k).bytes(w) == self.kid(v, k).bytes(v)
            &&& forall|x: int| self.kid(v, k).in_tree(w, below, x) == self.kid(v, k).in_tree(v, below, x)
        } by {
            let kid = self.kid(v, k);
            assert(kid.whole(v, below));
            crate::dir::lemma_appended(before, id, name, code, 0, all[k], 0, 0);
            assert forall|o: Inode|
                #[trigger] o.valid(v) && kid.in_tree(v, below, o.inode_id as int) implies o.sound(v) && o.quiet(
                v,
                w,
            ) by {
                self.lemma_kid_members(v, depth, s, k, o.inode_id as int);
            }
            kid.lemma_tree_kept(v, w, below);
            assert(self.entries(w)[k] == all[k]);
            assert(self.kid(w, k) == kid);
        }
        assert forall|k: int, x: int| 2 <= k < n implies #[trigger] self.kid(v, k).in_tree(w, below, x) == self.kid(
            v,
            k,
        ).in_tree(v, below, x) by {
            assert(self.kid(w, k) == self.kid(v, k));
        }
        // the new file
        let last = self.kid(w, n);
        assert(self.entries(w)[n] == name);
        assert(lookup(self.bytes(w), name)->head == crate::layout::DirEntryHead::for_name(id, name.len(), code));
        assert(last.inode_id == child.inode_id);
        assert(child.valid(w));
        assert(last.pos() == child.pos());
        assert(last.inode(w) == child.inode(w));
        assert(last.bytes(w) == child.bytes(w));
        let m = file_type;
        assert((0x1FFu16 | (m & 0xF000u16)) & 0xF000u16 == m & 0xF000u16) by (bit_vector);
        if is_dir {
            assert(last == child);
            self.lemma_dir_made(child, v, w, name, file_type, below, s);
            assert(last.leads_up(w, self.inode_id as int));
        } else {
            assert(last.kind(w) != EXT2_FT_DIR);
            assert forall|x: int| #[trigger] last.in_tree(w, below, x) == (x == child.inode_id) by {}
        }
    }

    /// Making a file in a whole directory that can be felled leaves a
    /// whole directory that can be felled, with one inode more, that of
    /// the new file: where the name has at most 255 bytes, the directory
    /// stays within 65535 bytes, and a new directory is no deeper than the
    /// bound. So every inode that is taken for a file of the tree is given
    /// back when the tree is taken out.
    pub proof fn lemma_dir_grown(
        &self,
        child: Inode,
        v: FsView,
        w: FsView,
        name: Seq<u8>,
        file_type: u16,
        depth: nat,
        s: Set<int>,
    )
        requires
            v.wf(),
            v.same_geometry(w),
            self.can_fell(v, depth, s),
            self.create_outcome(v, name, file_type) is None,
            name.len() <= 255,
            self.created(v, w, name, file_type, child),
            self.bytes(w).len() <= u16::MAX,
            file_type & crate::layout::EXT2_S_IFMT == crate::layout::EXT2_S_IFDIR ==> depth >= 2,
        ensures
            self.can_fell(w, depth, s.insert(child.inode_id as int)),
            self.parent_of(w) == self.parent_of(v),
            self.tree_size(w, depth) == self.tree_size(v, depth) + 1,
            forall|x: int| #[trigger] self.in_tree(w, depth, x) == (self.in_tree(v, depth, x) || x == child.inode_id),
            w.super_block.s_free_inodes_count + self.tree_size(w, depth) == v.super_block.s_free_inodes_count
                + self.tree_size(v, depth),
    {
        let below = (depth - 1) as nat;
        let all = self.entries(v);
        let n = all.len() as int;
        let t = s.insert(child.inode_id as int);
        let last = self.kid(w, n);
        self.lemma_grown_kids(child, v, w, name, file_type, depth, s);
        self.lemma_fell_members(v, depth, s);
        self.lemma_one_more_counts(v, w, below, 2);
        v.lemma_same_geometry(w);
        let now = self.entries(w);
        assert(now =~= all.push(name));
        assert(now[0] == all[0] && now[1] == all[1]);
        assert(now.no_duplicates());
        assert(self.kind(w) == EXT2_FT_DIR);
        assert forall|x: int| #[trigger] self.in_tree(w, depth, x) == (self.in_tree(v, depth, x) || x
            == child.inode_id) by {
            self.lemma_one_more_in_kids(v, w, below, 2, n, x);
            self.lemma_in_kids_last(w, below, 2, n, x);
        }
        assert forall|k: int, x: int|
            2 <= k < now.len() && #[trigger] self.kid(w, k).in_tree(w, below, x) implies !self.in_kids(
            w,
            below,
            2,
            k,
            x,
        ) by {
            self.lemma_one_more_in_kids(v, w, below, 2, if k < n {
                k
            } else {
                n
            }, x);
            if k < n {
                assert(self.kid(w, k) == self.kid(v, k));
                assert(self.kid(v, k).in_tree(v, below, x));
            } else {
                assert(x == child.inode_id);
                if self.in_kids(v, below, 2, n, x) {
                    let j = self.lemma_in_kids_which(v, below, 2, n, x);
                    self.lemma_kid_members(v, depth, s, j, x);
                }
            }
        }
        assert forall|k: int| 2 <= k < now.len() implies {
            &&& (#[trigger] self.kid(w, k)).whole(w, below)
            &&& lookup(self.bytes(w), now[k]) is Found
            &&& 1 <= lookup(self.bytes(w), now[k])->head.inode <= w.super_block.s_inodes_count
            &&& !self.kid(w, k).in_tree(w, below, self.inode_id as int)
            &&& self.kid(w, k).kind(w) == EXT2_FT_DIR ==> self.kid(w, k).leads_up(w, self.inode_id as int)
        } by {
            if k < n {
                assert(self.kid(w, k) == self.kid(v, k));
                assert(self.kid(v, k).whole(v, below));
                assert(now[k] == all[k]);
                assert(self.kid(v, k).in_tree(w, below, self.inode_id as int) == self.kid(v, k).in_tree(
                    v,
                    below,
                    self.inode_id as int,
                ));
            } else {
                assert(now[k] == name);
                assert(child.valid(w));
            }
        }
        assert(self.valid(w));
        assert(w.inode_used(self.inode_id as int));
        assert(self.inode(w).spec_is_dir());
        assert(tiled(self.bytes(w)));
        assert(names(self.bytes(w)) is Some);
        assert(self.inode(w).i_links_count == 2 + self.subdirs(w, 2));
        assert(self.whole(w, depth));
        assert(lookup(self.bytes(w), dot_dot()) is Found);
        assert(!self.in_tree(w, depth, self.parent_of(w).inode_id as int));
        assert(self.rooted(w, depth));
        assert forall|x: int| #[trigger] self.in_tree(w, depth, x) implies t.contains(x) by {}
    }

    /// A directory that was just made in a sound directory that counts a
    /// link can be taken out again with `unlink` as a tree of one inode,
    /// where its entry can be taken out.
    pub proof fn lemma_made_tree(&self, child: Inode, v: FsView, w: FsView, name: Seq<u8>, file_type: u16)
        requires
            v.wf(),
            v.same_geometry(w),
            self.dir_sound(v),
            self.inode(v).i_links_count >= 1,
            name.len() <= 255,
            file_type & crate::layout::EXT2_S_IFMT == crate::layout::EXT2_S_IFDIR,
            self.create_outcome(v, name, file_type) is None,
            self.created(v, w, name, file_type, child),
            self.can_unlink(w, name),
        ensures
            self.can_remove_tree(w, name),
            self.child_of(w, name) == child,
            child.tree_size(w, w.super_block.s_inodes_count as nat) == 1,
            forall|x: int|
                #[trigger] child.in_tree(w, w.super_block.s_inodes_count as nat, x) == (x == child.inode_id),
            w.super_block.s_free_inodes_count + 1 == v.super_block.s_free_inodes_count,
    {
        let depth = w.super_block.s_inodes_count as nat;
        let s = Set::<int>::empty().insert(self.inode_id as int);
        v.lemma_blocks();
        v.lemma_same_geometry(w);
        assert(tidy(v, s)) by {
            assert forall|a: Inode|
                #[trigger] a.valid(v) && s.contains(a.inode_id as int) && v.inode_used(
                    a.inode_id as int,
                ) implies a.sound(v) by {
                assert(a.pos() == self.pos());
            }
        }
        self.lemma_dir_made(child, v, w, name, file_type, depth, s);
        assert(crate::dir::stored_name(name) =~= name);
        crate::dir::lemma_appended(self.bytes(v), child.inode_id as u32, name, crate::layout::file_code_of(file_type), 0, name, 0, 0);
        crate::dir::lemma_entry_bytes(child.inode_id as u32, name, crate::layout::file_code_of(file_type));
        assert(self.child_of(w, name) == child);
        assert(self.tree_set(w, name) =~= s.insert(child.inode_id as int));
    }

    /// Making a file in a directory of a tree that `unlink` takes out
    /// whole leaves it such a tree, with one inode more in the tree and
    /// one less that is free: where the name has at most 255 bytes, the
    /// directory stays within 65535 bytes, and a new directory has room
    /// below it. So every inode that is taken for a file of the tree is
    /// given back when the tree is taken out.
    pub proof fn lemma_grown_tree(
        &self,
        dir: Inode,
        child: Inode,
        v: FsView,
        w: FsView,
        under: Seq<u8>,
        name: Seq<u8>,
        file_type: u16,
    )
        requires
            v.wf(),
            v.same_geometry(w),
            self.valid(v),
            self.can_remove_tree(v, under),
            dir.dir_sound(v),
            self.child_of(v, under).in_tree(v, v.super_block.s_inodes_count as nat, dir.inode_id as int),
            name.len() <= 255,
            dir.create_outcome(v, name, file_type) is None,
            dir.created(v, w, name, file_type, child),
            dir.bytes(w).len() <= u16::MAX,
            file_type & crate::layout::EXT2_S_IFMT == crate::layout::EXT2_S_IFDIR ==> self.child_of(v, under).roomy(
                v,
                v.super_block.s_inodes_count as nat,
                dir.inode_id as int,
            ),
        ensures
            self.can_remove_tree(w, under),
            self.child_of(w, under) == self.child_of(v, under),
            forall|x: int|
                #[trigger] self.child_of(v, under).in_tree(w, w.super_block.s_inodes_count as nat, x) == (
                self.child_of(v, under).in_tree(v, v.super_block.s_inodes_count as nat, x) || x == child.inode_id),
            w.super_block.s_free_inodes_count + self.child_of(w, under).tree_size(
                w,
                w.super_block.s_inodes_count as nat,
            ) == v.super_block.s_free_inodes_count + self.child_of(v, under).tree_size(
                v,
                v.super_block.s_inodes_count as nat,
            ),
    {
        let depth = v.super_block.s_inodes_count as nat;
        let top = self.child_of(v, under);
        let s = self.tree_set(v, under);
        let up = top.parent_of(v);
        v.lemma_same_geometry(w);
        top.lemma_fell_members(v, depth, s);
        top.lemma_tree_grown(dir, child, v, w, name, file_type, depth, s);
        dir.lemma_created_tidy(child, v, w, name, file_type, s);
        assert(up.pos() == self.pos());
        assert(self.inode_id != dir.inode_id);
        assert(self.sound(v));
        assert(self.quiet(v, w));
        self.lemma_left_alone(v, w);
        assert(top.valid(w));
        assert(self.child_of(w, under) == top);
        assert(self.tree_set(w, under) =~= s.insert(child.inode_id as int));
        assert(self.valid(w));
        assert(top.sound(w));
        assert(self.apart_from(top, w));
    }

    /// What a sound file does to itself, staying sound, leaves a file
    /// system tidy that was tidy among inodes of which the file's was one;
    /// and every other file among them was left alone.
    pub proof fn lemma_step_tidy(&self, v: FsView, w: FsView, s: Set<int>)
        requires
            v.wf(),
            w.wf(),
            v.same_geometry(w),
            tidy(v, s),
            s.contains(self.inode_id as int),
            self.sound(v),
            self.sound(w),
            self.kept_to_itself(v, w),
            crate::vfs::only_file_changed(v, w, self.pos()),
            forall|i: int| 1 <= i <= v.super_block.s_inodes_count ==> #[trigger] w.inode_used(i) == v.inode_used(i),
        ensures
            tidy(w, s),
            forall|o: Inode|
                #[trigger] o.valid(v) && s.contains(o.inode_id as int) && v.inode_used(o.inode_id as int)
                    && o.inode_id != self.inode_id ==> o.sound(v) && o.quiet(v, w),
    {
        v.lemma_same_geometry(w);
        assert forall|o: Inode|
            #[trigger] o.valid(v) && s.contains(o.inode_id as int) && v.inode_used(o.inode_id as int) && o.inode_id
                != self.inode_id implies o.sound(v) && o.quiet(v, w) && o.sound(w) && self.apart_from(o, w) by {
            assert(self.valid(v));
            assert(self.apart_from(o, v));
            self.lemma_leaves_alone(o, v, w);
        }
        assert forall|a: Inode|
            #[trigger] a.valid(w) && s.contains(a.inode_id as int) && w.inode_used(
                a.inode_id as int,
            ) implies a.sound(w) by {
            assert(a.valid(v));
            if a.inode_id == self.inode_id {
                assert(a.pos() == self.pos());
            }
        }
        assert forall|a: Inode, b: Inode|
            #[trigger] a.valid(w) && #[trigger] b.valid(w) && s.contains(a.inode_id as int) && s.contains(
                b.inode_id as int,
            ) && w.inode_used(a.inode_id as int) && w.inode_used(b.inode_id as int) && a.inode_id
                != b.inode_id implies a.apart_from(b, w) by {
            assert(a.valid(v));
            assert(b.valid(v));
            assert(self.valid(v));
            if a.inode_id == self.inode_id {
                assert(a.pos() == self.pos());
                assert(self.apart_from(b, w));
            } else if b.inode_id == self.inode_id {
                assert(b.pos() == self.pos());
                assert(self.apart_from(a, w));
                lemma_apart_sym(
                    w,
                    self.pos(),
                    blocks_for(self.inode(w).i_size as int),
                    a.pos(),
                    blocks_for(a.inode(w).i_size as int),
                );
            } else {
                a.lemma_both_alone(b, v, w);
            }
        }
    }

    /// What a file of a tree that is no directory does to itself, as by a
    /// write or a change of its size, leaves the tree as one that `unlink`
    /// takes out whole, with the inodes that it had: where the file stays
    /// sound, and its inode says of what kind it is and how many links it
    /// has, as before.
    pub proof fn lemma_changed_file(&self, file: Inode, v: FsView, w: FsView, under: Seq<u8>)
        requires
            v.wf(),
            w.wf(),
            v.same_geometry(w),
            self.valid(v),
            self.can_remove_tree(v, under),
            file.valid(v),
            self.child_of(v, under).in_tree(v, v.super_block.s_inodes_count as nat, file.inode_id as int),
            file.inode(v).spec_file_code() != EXT2_FT_DIR,
            file.sound(w),
            file.inode(w).i_mode == file.inode(v).i_mode,
            file.inode(w).i_links_count == file.inode(v).i_links_count,
            file.kept_to_itself(v, w),
            crate::vfs::only_file_changed(v, w, file.pos()),
            crate::sound::only_blocks_counted(v, w),
        ensures
            self.can_remove_tree(w, under),
            self.child_of(w, under) == self.child_of(v, under),
            forall|x: int|
                #[trigger] self.child_of(v, under).in_tree(w, w.super_block.s_inodes_count as nat, x) == self.child_of(
                    v,
                    under,
                ).in_tree(v, v.super_block.s_inodes_count as nat, x),
            w.super_block.s_free_inodes_count == v.super_block.s_free_inodes_count,
            self.child_of(w, under).tree_size(w, w.super_block.s_inodes_count as nat) == self.child_of(
                v,
                under,
            ).tree_size(v, v.super_block.s_inodes_count as nat),
    {
        let depth = v.super_block.s_inodes_count as nat;
        let dir = self.child_of(v, under);
        let s = self.tree_set(v, under);
        let up = dir.parent_of(v);
        v.lemma_same_geometry(w);
        dir.lemma_fell_members(v, depth, s);
        dir.lemma_tree_used(v, depth, file.inode_id as int);
        assert(file.sound(v));
        file.lemma_step_tidy(v, w, s);
        assert(dir.kind(v) == dir.inode(v).spec_file_code());
        assert(file.inode_id != dir.inode_id) by {
            assert(file.pos() == dir.pos() ==> file.inode(v) == dir.inode(v));
        }
        assert forall|o: Inode|
            #[trigger] o.valid(v) && dir.in_tree(v, depth, o.inode_id as int) implies o.sound(v) && o.stays(v, w) by {
            dir.lemma_tree_used(v, depth, o.inode_id as int);
            if o.inode_id == file.inode_id {
                assert(o.pos() == file.pos());
            }
        }
        dir.lemma_tree_stays(v, w, depth);
        assert(up.pos() == self.pos());
        assert(self.inode_id != file.inode_id);
        assert(self.sound(v));
        assert(self.quiet(v, w));
        self.lemma_left_alone(v, w);
        assert(dir.valid(w));
        assert(self.child_of(w, under) == dir);
        assert(self.tree_set(w, under) =~= s);
        assert(self.valid(w));
        assert(dir.sound(w));
        assert(self.apart_from(dir, w));
        assert(dir.rooted(w, depth));
    }

    /// The inode `id` is that of a file of this tree below which two more
    /// entries fit within the `depth`.
    pub open spec fn roomy(&self, v: FsView, depth: nat, id: int) -> bool
        decreases depth, 0nat, 0nat,
    {
        (id == self.inode_id && depth >= 2) || (depth > 0 && self.kind(v) == EXT2_FT_DIR && self.kids_roomy(
            v,
            (depth - 1) as nat,
            2,
            self.entries(v).len() as int,
            id,
        ))
    }

    /// The inode `id` is that of a file with room below it in the tree of
    /// one of the entries from number `from` up to number `to`.
    pub open spec fn kids_roomy(&self, v: FsView, depth: nat, from: int, to: int, id: int) -> bool
        decreases depth, 1nat, (if from < to {
            to - from
        } else {
            0
        }) as nat,
    {
        from < to && (self.kid(v, from).roomy(v, depth, id) || self.kids_roomy(v, depth, from + 1, to, id))
    }

    /// A file with room below it in the tree of one of the entries from
    /// `from` up to `to` has it in the tree of one that the lemma names.
    pub proof fn lemma_kids_roomy_which(&self, v: FsView, depth: nat, from: int, to: int, x: int) -> (k: int)
        requires
            self.kids_roomy(v, depth, from, to, x),
        ensures
            from <= k < to,
            self.kid(v, k).roomy(v, depth, x),
        decreases to - from,
    {
        if self.kid(v, from).roomy(v, depth, x) {
            from
        } else {
            self.lemma_kids_roomy_which(v, depth, from + 1, to, x)
        }
    }

    /// A file with room below it in a tree is a file of the tree.
    pub proof fn lemma_roomy_in(&self, v: FsView, depth: nat, x: int)
        requires
            self.roomy(v, depth, x),
        ensures
            self.in_tree(v, depth, x),
        decreases depth,
    {
        if x != self.inode_id {
            let below = (depth - 1) as nat;
            let n = self.entries(v).len() as int;
            let k = self.lemma_kids_roomy_which(v, below, 2, n, x);
            self.kid(v, k).lemma_roomy_in(v, below, x);
            self.lemma_in_kids_at(v, below, 2, n, k, x);
        }
    }

    /// The entries of this directory lead in `w` where they led in `v`, to
    /// files of the same kind; the trees behind them have the inodes they
    /// had, and the one that holds the inode `at` the inode `new` besides.
    pub open spec fn kids_grown(&self, v: FsView, w: FsView, depth: nat, at: int, new: int) -> bool {
        &&& self.entries(w) == self.entries(v)
        &&& forall|k: int|
            2 <= k < self.entries(v).len() ==> {
                &&& self.kid(w, k) == (#[trigger] self.kid(v, k))
                &&& self.kid(v, k).kind(w) == self.kid(v, k).kind(v)
                &&& self.kid(v, k).tree_size(w, depth) == self.kid(v, k).tree_size(v, depth) + if self.kid(
                    v,
                    k,
                ).in_tree(v, depth, at) {
                    1nat
                } else {
                    0nat
                }
            }
        &&& forall|k: int, x: int|
            2 <= k < self.entries(v).len() ==> #[trigger] self.kid(v, k).in_tree(w, depth, x) == (self.kid(
                v,
                k,
            ).in_tree(v, depth, x) || (x == new && self.kid(v, k).in_tree(v, depth, at)))
    }

    /// Where the tree behind one entry has gained an inode, the trees
    /// behind the entries have it besides those they had.
    pub proof fn lemma_grown_in_kids(
        &self,
        v: FsView,
        w: FsView,
        depth: nat,
        at: int,
        new: int,
        from: int,
        to: int,
        x: int,
    )
        requires
            self.kids_grown(v, w, depth, at, new),
            2 <= from,
            to <= self.entries(v).len(),
        ensures
            self.in_kids(w, depth, from, to, x) == (self.in_kids(v, depth, from, to, x) || (x == new && self.in_kids(
                v,
                depth,
                from,
                to,
                at,
            ))),
        decreases to - from,
    {
        if from < to {
            assert(self.kid(w, from) == self.kid(v, from));
            assert(self.kid(v, from).in_tree(w, depth, x) == (self.kid(v, from).in_tree(v, depth, x) || (x == new
                && self.kid(v, from).in_tree(v, depth, at))));
            self.lemma_grown_in_kids(v, w, depth, at, new, from + 1, to, x);
        }
    }

    /// Where the tree behind one entry has gained an inode, as many of the
    /// entries lead to directories as before, and the trees behind them
    /// have one inode more together: no two of them share an inode.
    pub proof fn lemma_grown_counts(&self, v: FsView, w: FsView, depth: nat, at: int, new: int, from: int)
        requires
            self.kids_grown(v, w, depth, at, new),
            2 <= from <= self.entries(v).len(),
            forall|k: int, x: int|
                2 <= k < self.entries(v).len() && #[trigger] self.kid(v, k).in_tree(v, depth, x) ==> !self.in_kids(
                    v,
                    depth,
                    2,
                    k,
                    x,
                ),
        ensures
            self.subdirs(w, from) == self.subdirs(v, from),
            self.kids_size(w, depth, from) == self.kids_size(v, depth, from) + if self.in_kids(
                v,
                depth,
                from,
                self.entries(v).len() as int,
                at,
            ) {
                1nat
            } else {
                0nat
            },
        decreases self.entries(v).len() - from,
    {
        let n = self.entries(v).len() as int;
        if from < n {
            assert(self.kid(w, from) == self.kid(v, from));
            self.lemma_grown_counts(v, w, depth, at, new, from + 1);
            if self.kid(v, from).in_tree(v, depth, at) && self.in_kids(v, depth, from + 1, n, at) {
                let k = self.lemma_in_kids_which(v, depth, from + 1, n, at);
                self.lemma_in_kids_at(v, depth, 2, k, from, at);
                assert(false);
            }
        }
    }

    /// While a file is made in a directory of the tree behind one entry
    /// of this directory, the tree behind another entry is left as it is.
    pub proof fn lemma_grown_beside(
        &self,
        dir: Inode,
        child: Inode,
        v: FsView,
        w: FsView,
        name: Seq<u8>,
        file_type: u16,
        depth: nat,
        s: Set<int>,
        k: int,
        j: int,
    )
        requires
            v.wf(),
            v.same_geometry(w),
            self.can_fell(v, depth, s),
            dir.dir_sound(v),
            dir.created(v, w, name, file_type, child),
            2 <= k < self.entries(v).len(),
            2 <= j < self.entries(v).len(),
            j != k,
            self.kid(v, k).in_tree(v, (depth - 1) as nat, dir.inode_id as int),
            self.bytes(w) == self.bytes(v),
        ensures
            !self.kid(v, j).in_tree(v, (depth - 1) as nat, dir.inode_id as int),
            self.kid(w, j) == self.kid(v, j),
            self.kid(v, j).whole(w, (depth - 1) as nat),
            self.kid(v, j).kind(w) == self.kid(v, j).kind(v),
            self.kid(v, j).bytes(w) == self.kid(v, j).bytes(v),
            self.kid(v, j).tree_size(w, (depth - 1) as nat) == self.kid(v, j).tree_size(v, (depth - 1) as nat),
            forall|x: int|
                #[trigger] self.kid(v, j).in_tree(w, (depth - 1) as nat, x) == self.kid(v, j).in_tree(
                    v,
                    (depth - 1) as nat,
                    x,
                ),
    {
        let below = (depth - 1) as nat;
        let at = dir.inode_id as int;
        let other = self.kid(v, j);
        v.lemma_same_geometry(w);
        self.lemma_fell_members(v, depth, s);
        self.lemma_kid_members(v, depth, s, k, at);
        assert(other.whole(v, below));
        if other.in_tree(v, below, at) {
            if j < k {
                self.lemma_in_kids_at(v, below, 2, k, j, at);
            } else {
                self.lemma_in_kids_at(v, below, 2, j, k, at);
            }
            assert(false);
        }
        dir.lemma_created_tidy(child, v, w, name, file_type, s);
        assert forall|o: Inode|
            #[trigger] o.valid(v) && other.in_tree(v, below, o.inode_id as int) implies o.sound(v) && o.quiet(v, w) by {
            self.lemma_kid_members(v, depth, s, j, o.inode_id as int);
        }
        other.lemma_tree_kept(v, w, below);
        assert(other.valid(w));
        assert(self.kid(w, j) == other);
    }

    /// Where the tree behind one entry of this whole directory, which was
    /// left alone, has gained the inode `new`, which was free, and the
    /// trees behind the other entries are as they were, the directory is
    /// whole, with that inode more in its tree.
    pub proof fn lemma_grown_above(&self, v: FsView, w: FsView, depth: nat, at: int, new: int, k: int)
        requires
            v.wf(),
            v.same_geometry(w),
            self.whole(v, depth),
            self.kind(v) == EXT2_FT_DIR,
            self.inode(w) == self.inode(v),
            self.bytes(w) == self.bytes(v),
            w.inode_used(self.inode_id as int),
            !v.inode_used(new),
            2 <= k < self.entries(v).len(),
            self.kid(v, k).in_tree(v, (depth - 1) as nat, at),
            self.kids_grown(v, w, (depth - 1) as nat, at, new),
            forall|j: int|
                2 <= j < self.entries(v).len() ==> (#[trigger] self.kid(w, j)).whole(w, (depth - 1) as nat) && (
                self.kid(v, j).kind(v) == EXT2_FT_DIR ==> self.kid(v, j).leads_up(w, self.inode_id as int)),
        ensures
            self.whole(w, depth),
            self.kind(w) == self.kind(v),
            self.tree_size(w, depth) == self.tree_size(v, depth) + 1,
            forall|x: int| #[trigger] self.in_tree(w, depth, x) == (self.in_tree(v, depth, x) || x == new),
    {
        let below = (depth - 1) as nat;
        let n = self.entries(v).len() as int;
        v.lemma_same_geometry(w);
        self.lemma_in_kids_at(v, below, 2, n, k, at);
        self.lemma_grown_counts(v, w, below, at, new, 2);
        assert forall|x: int| #[trigger] self.in_tree(w, depth, x) == (self.in_tree(v, depth, x) || x == new) by {
            self.lemma_grown_in_kids(v, w, below, at, new, 2, n, x);
        }
        assert forall|j: int, x: int|
            2 <= j < self.entries(w).len() && #[trigger] self.kid(w, j).in_tree(w, below, x) implies !self.in_kids(
            w,
            below,
            2,
            j,
            x,
        ) by {
            assert(self.kid(w, j) == self.kid(v, j));
            self.lemma_grown_in_kids(v, w, below, at, new, 2, j, x);
            assert(self.kid(v, j).whole(v, below));
            if self.kid(v, j).in_tree(v, below, x) {
                self.kid(v, j).lemma_tree_used(v, below, x);
            }
            if self.in_kids(v, below, 2, j, x) {
                let i = self.lemma_in_kids_which(v, below, 2, j, x);
                assert(self.kid(v, i).whole(v, below));
                self.kid(v, i).lemma_tree_used(v, below, x);
            }
        }
        assert forall|j: int| 2 <= j < self.entries(w).len() implies {
            &&& (#[trigger] self.kid(w, j)).whole(w, below)
            &&& lookup(self.bytes(w), self.entries(w)[j]) is Found
            &&& 1 <= lookup(self.bytes(w), self.entries(w)[j])->head.inode <= w.super_block.s_inodes_count
            &&& !self.kid(w, j).in_tree(w, below, self.inode_id as int)
            &&& self.kid(w, j).kind(w) == EXT2_FT_DIR ==> self.kid(w, j).leads_up(w, self.inode_id as int)
        } by {
            assert(self.kid(w, j) == self.kid(v, j));
            assert(self.kid(v, j).whole(v, below));
            assert(self.kid(v, j).in_tree(w, below, self.inode_id as int) == (self.kid(v, j).in_tree(
                v,
                below,
                self.inode_id as int,
            ) || (self.inode_id == new && self.kid(v, j).in_tree(v, below, at))));
        }
        assert(self.valid(w));
        assert(self.inode(w).i_links_count == 2 + self.subdirs(w, 2));
        assert(self.whole(w, depth));
    }

    /// While a file is made in a directory of the tree behind entry number
    /// `k` of this directory, which was left alone, the entries lead where
    /// they led, to whole trees: the one behind entry `k` has the new
    /// inode besides those that it had, the others are as they were.
    pub proof fn lemma_grown_all(
        &self,
        dir: Inode,
        child: Inode,
        v: FsView,
        w: FsView,
        name: Seq<u8>,
        file_type: u16,
        depth: nat,
        s: Set<int>,
        k: int,
    )
        requires
            v.wf(),
            v.same_geometry(w),
            self.can_fell(v, depth, s),
            dir.dir_sound(v),
            dir.created(v, w, name, file_type, child),
            2 <= k < self.entries(v).len(),
            self.kid(v, k).in_tree(v, (depth - 1) as nat, dir.inode_id as int),
            self.bytes(w) == self.bytes(v),
            self.kid(v, k).whole(w, (depth - 1) as nat),
            self.kid(v, k).inode(w).i_mode == self.kid(v, k).inode(v).i_mode,
            self.kid(v, k).kind(w) == self.kid(v, k).kind(v),
            lookup(self.kid(v, k).bytes(w), dot_dot()) == lookup(self.kid(v, k).bytes(v), dot_dot()),
            self.kid(v, k).tree_size(w, (depth - 1) as nat) == self.kid(v, k).tree_size(v, (depth - 1) as nat) + 1,
            forall|x: int|
                #[trigger] self.kid(v, k).in_tree(w, (depth - 1) as nat, x) == (self.kid(v, k).in_tree(
                    v,
                    (depth - 1) as nat,
                    x,
                ) || x == child.inode_id),
        ensures
            self.kids_grown(v, w, (depth - 1) as nat, dir.inode_id as int, child.inode_id as int),
            forall|j: int|
                2 <= j < self.entries(v).len() ==> (#[trigger] self.kid(w, j)).whole(w, (depth - 1) as nat) && (
                self.kid(v, j).kind(v) == EXT2_FT_DIR ==> self.kid(v, j).leads_up(w, self.inode_id as int)),
    {
        let below = (depth - 1) as nat;
        let n = self.entries(v).len() as int;
        let at = dir.inode_id as int;
        let new = child.inode_id as int;
        let kid = self.kid(v, k);
        v.lemma_same_geometry(w);
        assert(kid.whole(v, below));
        assert(kid.valid(w));
        assert(self.kid(w, k) == kid);
        assert(self.entries(w) == self.entries(v));
        assert forall|j: int| 2 <= j < n implies self.kid(w, j) == (#[trigger] self.kid(v, j)) by {
            if j != k {
                self.lemma_grown_beside(dir, child, v, w, name, file_type, depth, s, k, j);
            }
        }
        assert forall|j: int| 2 <= j < n implies (#[trigger] self.kid(w, j)).kind(w) == self.kid(v, j).kind(v) by {
            if j != k {
                self.lemma_grown_beside(dir, child, v, w, name, file_type, depth, s, k, j);
            }
        }
        assert forall|j: int| 2 <= j < n implies (#[trigger] self.kid(w, j)).tree_size(w, below) == self.kid(
            v,
            j,
        ).tree_size(v, below) + if self.kid(v, j).in_tree(v, below, at) {
            1nat
        } else {
            0nat
        } by {
            if j != k {
                self.lemma_grown_beside(dir, child, v, w, name, file_type, depth, s, k, j);
            }
        }
        assert forall|j: int, x: int| 2 <= j < n implies #[trigger] self.kid(v, j).in_tree(w, below, x) == (self.kid(
            v,
            j,
        ).in_tree(v, below, x) || (x == new && self.kid(v, j).in_tree(v, below, at))) by {
            if j != k {
                self.lemma_grown_beside(dir, child, v, w, name, file_type, depth, s, k, j);
            }
        }
        assert forall|j: int| 2 <= j < n implies (#[trigger] self.kid(w, j)).whole(w, below) && (self.kid(
            v,
            j,
        ).kind(v) == EXT2_FT_DIR ==> self.kid(v, j).leads_up(w, self.inode_id as int)) by {
            assert(self.kid(v, j).whole(v, below));
            if j != k {
                self.lemma_grown_beside(dir, child, v, w, name, file_type, depth, s, k, j);
            }
        }
        assert forall|j: int| 2 <= j < n implies {
            &&& self.kid(w, j) == (#[trigger] self.kid(v, j))
            &&& self.kid(v, j).kind(w) == self.kid(v, j).kind(v)
            &&& self.kid(v, j).tree_size(w, below) == self.kid(v, j).tree_size(v, below) + if self.kid(v, j).in_tree(
                v,
                below,
                at,
            ) {
                1nat
            } else {
                0nat
            }
        } by {
            let here = self.kid(w, j);
            assert(here == self.kid(v, j));
            assert(here.kind(w) == self.kid(v, j).kind(v));
            assert(here.tree_size(w, below) == self.kid(v, j).tree_size(v, below) + if self.kid(v, j).in_tree(
                v,
                below,
                at,
            ) {
                1nat
            } else {
                0nat
            });
        }
    }

    /// Making a file in a directory of a whole tree that can be felled
    /// leaves a whole tree that can be felled, with one inode more, that
    /// of the new file: where the name has at most 255 bytes, the
    /// directory stays within 65535 bytes, and a new directory has room
    /// below it.
    pub proof fn lemma_tree_grown(
        &self,
        dir: Inode,
        child: Inode,
        v: FsView,
        w: FsView,
        name: Seq<u8>,
        file_type: u16,
        depth: nat,
        s: Set<int>,
    )
        requires
            v.wf(),
            v.same_geometry(w),
            self.can_fell(v, depth, s),
            dir.dir_sound(v),
            self.in_tree(v, depth, dir.inode_id as int),
            dir.create_outcome(v, name, file_type) is None,
            name.len() <= 255,
            dir.created(v, w, name, file_type, child),
            dir.bytes(w).len() <= u16::MAX,
            file_type & crate::layout::EXT2_S_IFMT == crate::layout::EXT2_S_IFDIR ==> self.roomy(
                v,
                depth,
                dir.inode_id as int,
            ),
        ensures
            self.can_fell(w, depth, s.insert(child.inode_id as int)),
            self.parent_of(w) == self.parent_of(v),
            self.inode(w).i_mode == self.inode(v).i_mode,
            self.kind(w) == self.kind(v),
            lookup(self.bytes(w), dot_dot()) == lookup(self.bytes(v), dot_dot()),
            self.tree_size(w, depth) == self.tree_size(v, depth) + 1,
            forall|x: int| #[trigger] self.in_tree(w, depth, x) == (self.in_tree(v, depth, x) || x == child.inode_id),
        decreases depth,
    {
        let below = (depth - 1) as nat;
        let n = self.entries(v).len() as int;
        let at = dir.inode_id as int;
        let new = child.inode_id as int;
        let t = s.insert(new);
        let is_dir = file_type & crate::layout::EXT2_S_IFMT == crate::layout::EXT2_S_IFDIR;
        v.lemma_same_geometry(w);
        self.lemma_fell_members(v, depth, s);
        if self.inode_id == dir.inode_id {
            assert(self.pos() == dir.pos());
            if is_dir && depth < 2 {
                let k = self.lemma_kids_roomy_which(v, below, 2, n, at);
                self.kid(v, k).lemma_roomy_in(v, below, at);
                assert(false);
            }
            assert(self.create_outcome(v, name, file_type) is None);
            assert(self.created(v, w, name, file_type, child));
            self.lemma_grown_kids(child, v, w, name, file_type, depth, s);
            self.lemma_dir_grown(child, v, w, name, file_type, depth, s);
        } else {
            let k = self.lemma_in_kids_which(v, below, 2, n, at);
            let kid = self.kid(v, k);
            let up = self.parent_of(v);
            self.lemma_kid_can_fell(dir, v, depth, s, k);
            if is_dir {
                let j = self.lemma_kids_roomy_which(v, below, 2, n, at);
                self.kid(v, j).lemma_roomy_in(v, below, at);
                if j < k {
                    self.lemma_in_kids_at(v, below, 2, k, j, at);
                } else if k < j {
                    self.lemma_in_kids_at(v, below, 2, j, k, at);
                }
                assert(j == k);
            }
            kid.lemma_tree_grown(dir, child, v, w, name, file_type, below, s);
            // this directory and the one above it were left alone
            self.lemma_kid_members(v, depth, s, k, at);
            dir.lemma_created_tidy(child, v, w, name, file_type, s);
            assert(self.quiet(v, w));
            self.lemma_left_alone(v, w);
            assert(up.inode_id != dir.inode_id);
            assert(up.quiet(v, w));
            up.lemma_left_alone(v, w);
            assert(self.parent_of(w) == up);
            self.lemma_grown_all(dir, child, v, w, name, file_type, depth, s, k);
            self.lemma_grown_above(v, w, depth, at, new, k);
            assert(up.inode_id != new);
            assert(!self.in_tree(w, depth, up.inode_id as int));
            assert(self.rooted(w, depth));
            assert forall|x: int| #[trigger] self.in_tree(w, depth, x) implies t.contains(x) by {}
        }
    }

    /// The entry of a whole directory that can be felled behind which a
    /// directory of the tree stands leads to a directory that can be
    /// felled.
    pub proof fn lemma_kid_can_fell(&self, dir: Inode, v: FsView, depth: nat, s: Set<int>, k: int)
        requires
            v.wf(),
            self.can_fell(v, depth, s),
            dir.dir_sound(v),
            2 <= k < self.entries(v).len(),
            self.kid(v, k).in_tree(v, (depth - 1) as nat, dir.inode_id as int),
        ensures
            self.kid(v, k).can_fell(v, (depth - 1) as nat, s),
            self.kid(v, k).parent_of(v).inode_id == self.inode_id,
    {
        let below = (depth - 1) as nat;
        let kid = self.kid(v, k);
        self.lemma_fell_members(v, depth, s);
        assert(kid.whole(v, below));
        assert(kid.kind(v) == EXT2_FT_DIR) by {
            if kid.inode_id == dir.inode_id {
                assert(kid.pos() == dir.pos());
            }
        }
        assert(kid.leads_up(v, self.inode_id as int));
        assert(kid.parent_of(v).pos() == self.pos());
        assert forall|x: int| #[trigger] kid.in_tree(v, below, x) implies s.contains(x) by {
            self.lemma_kid_members(v, depth, s, k, x);
        }
        assert(kid.rooted(v, below));
    }
}

} // verus!
