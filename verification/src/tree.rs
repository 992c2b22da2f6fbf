//! Which inodes are directories, as far as blocks of inodes that are read tell.

use vstd::prelude::*;
use crate::bytes::le16_at;
use crate::content::{lemma_extends, writes};
use crate::device::{extends, Block, BlockDevice, Event, JournalCommitReason};
use crate::error::Result;
use crate::fs::{bytes_read, inode_found, Ext4, FsState, MetadataMutationMode};
use crate::inode::{type_of, FileType, InodeRef, SB_GOOD_INODE_SIZE};
use crate::staged::{block_of, holds_home};
use crate::unlink::directory;
use crate::volume::Volume;
use crate::{InodeId, PBlockId, BLOCK_SIZE};

verus! {

/// Whether the inodes that stand in a block are directories where `dirs` has them, and nowhere
/// else.
pub open spec fn tells_kinds(
    places: FsState,
    home: PBlockId,
    bytes: Seq<u8>,
    dirs: Set<InodeId>,
) -> bool {
    forall|id: InodeId|
        match #[trigger] places.inode_position(id) {
            Some((table, at)) => table == home ==> (type_of(le16_at(bytes, at))
                == FileType::Directory) == dirs.contains(id),
            None => true,
        }
}

/// Whether a block that was read tells which of its inodes are directories.
pub open spec fn kinds_in(places: FsState, call: Event, dirs: Set<InodeId>) -> bool {
    match call {
        Event::ReadBlock { id, reply: Ok(block) } => tells_kinds(places, id, block.data@, dirs),
        _ => true,
    }
}

impl<D: BlockDevice, V: Volume<D>> Ext4<D, V> {
    /// Where nothing happens, nothing is written.
    pub(crate) proof fn lemma_idle_only_asks(&self, after: &Self)
        requires
            self.idle(after),
        ensures
            self.only_asked(after),
    {
        assert(after.log().take(self.log().len() as int) =~= self.log());
    }

    /// One call that is no write writes nothing.
    pub(crate) proof fn lemma_call_only_asks(&self, after: &Self, call: Event)
        requires
            after.log() == self.log().push(call),
            after.state() == self.state(),
            !writes(call),
        ensures
            self.only_asked(after),
    {
        assert(after.log().take(self.log().len() as int) =~= self.log());
    }

    /// Whether every block of inodes that was read, and every image of one that waits for a commit,
    /// tells which inodes are directories.
    pub open spec fn kinds_told(&self, after: &Self, dirs: Set<InodeId>) -> bool {
        &&& forall|k: int|
            self.log().len() <= k < after.log().len() ==> kinds_in(
                self.state(),
                #[trigger] after.log()[k],
                dirs,
            )
        &&& forall|home: PBlockId| #[trigger]
            holds_home(self.state().batch(), home) ==> tells_kinds(
                self.state(),
                home,
                block_of(self.state().batch(), home).image@,
                dirs,
            )
    }

    /// Whether an inode was read on the way to a state to which nothing was written.
    pub open spec fn sees(&self, after: &Self, inode: InodeRef) -> bool {
        exists|before: Self, read: Self|
            {
                &&& self.only_asked(&before)
                &&& #[trigger] before.inode_read(&read, inode.id, Ok(inode))
                &&& read.only_asked(after)
            }
    }

    /// An inode that was read on the way was seen.
    pub(crate) proof fn lemma_read_is_seen(
        &self,
        before: &Self,
        read: &Self,
        after: &Self,
        inode: InodeRef,
    )
        requires
            before.inode_read(read, inode.id, Ok(inode)),
            self == before || self.only_asked(before),
            read == after || read.only_asked(after),
        ensures
            self.sees(after, inode),
    {
        if self == before {
            self.lemma_idle_only_asks(before);
        }
        if read == after {
            read.lemma_idle_only_asks(after);
        }
        assert(before.inode_read(read, inode.id, Ok(inode)));
    }

    /// An inode that was seen on a part of the way was seen.
    pub(crate) proof fn lemma_seen_on_the_way(
        &self,
        first: &Self,
        second: &Self,
        after: &Self,
        inode: InodeRef,
    )
        requires
            self.only_asked(first),
            first.sees(second, inode),
            second.only_asked(after),
        ensures
            self.sees(after, inode),
    {
        let (before, read) = choose|before: Self, read: Self|
            {
                &&& first.only_asked(&before)
                &&& #[trigger] before.inode_read(&read, inode.id, Ok(inode))
                &&& read.only_asked(second)
            };
        self.lemma_calls_join(first, &before);
        read.lemma_calls_join(second, after);
        assert(before.inode_read(&read, inode.id, Ok(inode)));
    }

    /// An inode that was seen is what is told of it.
    pub(crate) proof fn lemma_kind_of_seen(
        &self,
        after: &Self,
        last: &Self,
        inode: InodeRef,
        dirs: Set<InodeId>,
    )
        requires
            self.sees(after, inode),
            extends(after.log(), last.log()),
            self.kinds_told(last, dirs),
        ensures
            directory(inode) == dirs.contains(inode.id),
    {
        let (before, read) = choose|before: Self, read: Self|
            {
                &&& self.only_asked(&before)
                &&& #[trigger] before.inode_read(&read, inode.id, Ok(inode))
                &&& read.only_asked(after)
            };
        self.lemma_kinds_go_on(&before, last, dirs);
        lemma_extends(read.log(), after.log(), last.log());
        before.lemma_kind_is_told(&read, last, inode.id, inode, dirs);
    }

    /// What is told from a state on is told from a later one on.
    pub(crate) proof fn lemma_kinds_go_on(&self, middle: &Self, after: &Self, dirs: Set<InodeId>)
        requires
            self.kinds_told(after, dirs),
            middle.state() == self.state(),
            extends(self.log(), middle.log()),
        ensures
            middle.kinds_told(after, dirs),
    {
    }

    /// What is told up to a state is told up to an earlier one.
    pub(crate) proof fn lemma_kinds_so_far(&self, middle: &Self, after: &Self, dirs: Set<InodeId>)
        requires
            self.kinds_told(after, dirs),
            extends(middle.log(), after.log()),
        ensures
            self.kinds_told(middle, dirs),
    {
        assert forall|k: int| self.log().len() <= k < middle.log().len() implies kinds_in(
            self.state(),
            #[trigger] middle.log()[k],
            dirs,
        ) by {
            assert(after.log().take(middle.log().len() as int)[k] == after.log()[k]);
        }
    }

    /// An inode that is read is what is told of it.
    pub(crate) proof fn lemma_kind_is_told(
        &self,
        after: &Self,
        last: &Self,
        id: InodeId,
        inode: InodeRef,
        dirs: Set<InodeId>,
    )
        requires
            self.inode_read(after, id, Ok(inode)),
            extends(after.log(), last.log()),
            self.kinds_told(last, dirs),
        ensures
            inode.id == id,
            directory(inode) == dirs.contains(id),
    {
        lemma_inode_stays_in_its_block(self.state(), id);
        let (home, at) = self.state().inode_position(id)->0;
        let reply = choose|reply: Result<Block>|
            {
                &&& #[trigger] self.block_read(after, home, reply)
                &&& inode_found(bytes_read(reply), at, id, Ok(inode))
            };
        let bytes = reply->Ok_0.data@;
        if !holds_home(self.state().batch(), home) {
            let k = self.log().len() as int;
            assert(last.log().take(after.log().len() as int)[k] == last.log()[k]);
            assert(after.log()[k] == Event::ReadBlock { id: home, reply });
            assert(kinds_in(self.state(), last.log()[k], dirs));
        }
        assert(tells_kinds(self.state(), home, bytes, dirs));
        assert(self.state().inode_position(id) == Some((home, at)));
        assert(le16_at(inode.inode@, 0) == le16_at(bytes, at));
    }

    /// What is told does not depend on who is inside the barrier.
    pub(crate) proof fn lemma_kinds_elsewhere(
        &self,
        other: &Self,
        after: &Self,
        dirs: Set<InodeId>,
    )
        requires
            self.kinds_told(after, dirs),
            other.log() == self.log(),
            other.state().superblock == self.state().superblock,
            other.state().groups == self.state().groups,
            other.state().batch() == self.state().batch(),
        ensures
            other.kinds_told(after, dirs),
    {
        assert forall|k: int| other.log().len() <= k < after.log().len() implies kinds_in(
            other.state(),
            #[trigger] after.log()[k],
            dirs,
        ) by {
            assert(kinds_in(self.state(), after.log()[k], dirs));
            if let Event::ReadBlock { id, reply: Ok(block) } = after.log()[k] {
                lemma_kinds_of_place(self.state(), other.state(), id, block.data@, dirs);
            }
        }
        assert forall|home: PBlockId| #[trigger]
            holds_home(other.state().batch(), home) implies tells_kinds(
            other.state(),
            home,
            block_of(other.state().batch(), home).image@,
            dirs,
        ) by {
            lemma_kinds_of_place(
                self.state(),
                other.state(),
                home,
                block_of(self.state().batch(), home).image@,
                dirs,
            );
        }
    }

    /// What is told from before the barrier on is told from inside it on.
    pub(crate) proof fn lemma_kinds_inside(
        &self,
        inside: &Self,
        after: &Self,
        dirs: Set<InodeId>,
    )
        requires
            self.direct_entered(inside, Ok(())),
            self.kinds_told(after, dirs),
        ensures
            extends(self.log(), inside.log()),
            inside.kinds_told(after, dirs),
            inside.state().superblock == self.state().superblock,
            inside.state().groups == self.state().groups,
    {
        let (entered, flushed) = choose|entered: Self, flushed: Self|
            {
                &&& self.direct_inside(&entered)
                &&& #[trigger] entered.flushed(
                    &flushed,
                    JournalCommitReason::DirectMetadataBarrier,
                    Ok(()),
                )
                &&& flushed.idle(inside)
            };
        match self.state().mode {
            MetadataMutationMode::Journal(journal) => {
                entered.lemma_followed_is_recorded(&flushed);
            },
            _ => {
                assert(inside.log().take(self.log().len() as int) =~= self.log());
            },
        }
        assert forall|id: InodeId| #[trigger]
            inside.state().inode_position(id) == self.state().inode_position(id) by {}
        assert forall|k: int| inside.log().len() <= k < after.log().len() implies kinds_in(
            inside.state(),
            #[trigger] after.log()[k],
            dirs,
        ) by {
            assert(kinds_in(self.state(), after.log()[k], dirs));
            if let Event::ReadBlock { id, reply: Ok(block) } = after.log()[k] {
                lemma_kinds_of_place(self.state(), inside.state(), id, block.data@, dirs);
            }
        }
        assert forall|home: PBlockId| #[trigger]
            holds_home(inside.state().batch(), home) implies tells_kinds(
            inside.state(),
            home,
            block_of(inside.state().batch(), home).image@,
            dirs,
        ) by {
            assert(inside.state().batch() == self.state().batch());
            assert(holds_home(self.state().batch(), home));
            lemma_kinds_of_place(
                self.state(),
                inside.state(),
                home,
                block_of(self.state().batch(), home).image@,
                dirs,
            );
        }
    }
}

/// An inode does not reach beyond its block.
pub(crate) proof fn lemma_inode_stays_in_its_block(places: FsState, id: InodeId)
    ensures
        places.inode_position(id) matches Some((_, at)) ==> 0 <= at && at + SB_GOOD_INODE_SIZE
            <= BLOCK_SIZE,
{
    let per_group = crate::bytes::le32_at(places.superblock, 40) as int;
    if id != 0 && per_group != 0 {
        let n = (id - 1) % per_group;
        let q = n * 256 / 4096;
        let r = n * 256 % 4096;
        assert(n * 256 == 4096 * q + r);
        assert(r == 256 * (n - 16 * q));
    }
}

/// Where inodes stand is all that matters of a state for what a block tells.
proof fn lemma_kinds_of_place(
    places: FsState,
    others: FsState,
    home: PBlockId,
    bytes: Seq<u8>,
    dirs: Set<InodeId>,
)
    requires
        tells_kinds(places, home, bytes, dirs),
        places.superblock == others.superblock,
        places.groups == others.groups,
    ensures
        tells_kinds(others, home, bytes, dirs),
{
    assert forall|id: InodeId|
        match #[trigger] others.inode_position(id) {
            Some((table, at)) => table == home ==> (type_of(le16_at(bytes, at))
                == FileType::Directory) == dirs.contains(id),
            None => true,
        } by {
        assert(places.inode_position(id) == others.inode_position(id));
    }
}

} // verus!
