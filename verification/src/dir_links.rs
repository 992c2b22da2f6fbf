//! The number of names of a directory, which goes with the number of its subdirectories.

use vstd::prelude::*;
use crate::bytes::{le16, le16_at, splice};
use crate::content::{
    held, lemma_extends, lemma_held_joins, lemma_held_without_writes, writes, Disk,
};
use crate::device::{extends, since, Block, BlockDevice, Event};
use crate::error::{Ext4Error, Result};
use crate::fs::{bytes_read, inode_found, Ext4, FsState, MetadataMutationMode};
use crate::gate::MetadataMutationGate;
use crate::inode::{FileType, InodeRef, SB_GOOD_INODE_SIZE};
use crate::name_moves::{is_exchanged, turned};
use crate::naming::Names;
use crate::rename::{target_of, Exchange, RenameDirs};
use crate::staged::holds_home;
use crate::superblock::lemma_checksum_keeps_inode;
use crate::tree::lemma_inode_stays_in_its_block;
use crate::unlink::{directory, links_of};
use crate::volume::{LayerCall, Volume};
use crate::InodeId;

verus! {

/// The number of names that an inode has on a device.
pub open spec fn links_on(disk: Disk, places: FsState, id: InodeId) -> u16 {
    match places.inode_position(id) {
        Some((home, at)) => le16_at(disk[home], at + 26),
        None => 0,
    }
}

/// Whether no two inodes stand in one place.
pub open spec fn inodes_apart(places: FsState) -> bool {
    forall|one: InodeId, other: InodeId|
        match (#[trigger] places.inode_position(one), #[trigger] places.inode_position(other)) {
            (Some((home, at)), Some((table, there))) => one != other && home == table ==> at
                + SB_GOOD_INODE_SIZE <= there || there + SB_GOOD_INODE_SIZE <= at,
            _ => true,
        }
}

/// Whether a block of inodes that was read tells how many names they have on a device.
pub open spec fn tells_links(places: FsState, call: Event, disk: Disk) -> bool {
    match call {
        Event::ReadBlock { id: home, reply: Ok(block) } => {
            &&& block.id == home
            &&& forall|id: InodeId|
                match #[trigger] places.inode_position(id) {
                    Some((table, at)) => table == home ==> le16_at(block.data@, at + 26) == le16_at(
                        disk[home],
                        at + 26,
                    ),
                    None => true,
                }
        },
        _ => true,
    }
}

/// Whether blocks of inodes that are read tell, one after another, how many names these have by
/// then.
pub open spec fn truthful(places: FsState, disk: Disk, calls: Seq<Event>) -> bool {
    forall|k: int|
        0 <= k < calls.len() ==> tells_links(
            places,
            #[trigger] calls[k],
            held(disk, calls.take(k)),
        )
}

/// Calls that follow on calls are answered with what these left.
proof fn lemma_truthful_splits(
    places: FsState,
    others: FsState,
    disk: Disk,
    first: Seq<Event>,
    second: Seq<Event>,
)
    requires
        truthful(places, disk, first + second),
        places.superblock == others.superblock,
        places.groups == others.groups,
    ensures
        truthful(places, disk, first),
        truthful(others, held(disk, first), second),
{
    let all = first + second;
    assert forall|k: int| 0 <= k < first.len() implies tells_links(
        places,
        #[trigger] first[k],
        held(disk, first.take(k)),
    ) by {
        assert(all[k] == first[k]);
        assert(all.take(k) =~= first.take(k));
    }
    assert forall|k: int| 0 <= k < second.len() implies tells_links(
        others,
        #[trigger] second[k],
        held(held(disk, first), second.take(k)),
    ) by {
        assert(all[first.len() + k] == second[k]);
        assert(all.take(first.len() + k) =~= first + second.take(k));
        lemma_held_joins(disk, first, second.take(k));
        let by_then = held(disk, first + second.take(k));
        assert(tells_links(places, second[k], by_then));
        lemma_told_elsewhere(places, others, second[k], by_then);
    }
}

/// Where inodes stand is all that matters of a state for what a block tells.
proof fn lemma_told_elsewhere(places: FsState, others: FsState, call: Event, disk: Disk)
    requires
        tells_links(places, call, disk),
        places.superblock == others.superblock,
        places.groups == others.groups,
    ensures
        tells_links(others, call, disk),
{
    if let Event::ReadBlock { id: home, reply: Ok(block) } = call {
        assert forall|id: InodeId|
            match #[trigger] others.inode_position(id) {
                Some((table, at)) => table == home ==> le16_at(block.data@, at + 26) == le16_at(
                    disk[home],
                    at + 26,
                ),
                None => true,
            } by {
            assert(places.inode_position(id) == others.inode_position(id));
        }
    }
}

/// The number of names with one more, one fewer, or both.
pub open spec fn recount(links: u16, more: bool, fewer: bool) -> u16 {
    if more == fewer {
        links
    } else if more {
        links.wrapping_add(1)
    } else {
        links.wrapping_sub(1)
    }
}

impl<D: BlockDevice, V: Volume<D>> Ext4<D, V> {
    /// What a device holds after the calls that led to a later state.
    pub open spec fn left_on(&self, after: &Self, disk: Disk) -> Disk {
        held(disk, since(self.log(), after.log()))
    }

    /// Whether the blocks of inodes that were read on the way to a later state tell how many names
    /// these have on a device.
    pub open spec fn honest(&self, after: &Self, disk: Disk) -> bool {
        truthful(self.state(), disk, since(self.log(), after.log()))
    }

    /// What led from one state to the next, and from there on, is what led to the last.
    pub(crate) proof fn lemma_device_joins(&self, middle: &Self, after: &Self, disk: Disk)
        requires
            extends(self.log(), middle.log()),
            extends(middle.log(), after.log()),
        ensures
            extends(self.log(), after.log()),
            self.left_on(after, disk) == middle.left_on(after, self.left_on(middle, disk)),
            self.honest(after, disk) && middle.state().superblock == self.state().superblock
                && middle.state().groups == self.state().groups ==> {
                &&& self.honest(middle, disk)
                &&& middle.honest(after, self.left_on(middle, disk))
            },
    {
        lemma_extends(self.log(), middle.log(), after.log());
        let first = since(self.log(), middle.log());
        let second = since(middle.log(), after.log());
        assert(since(self.log(), after.log()) =~= first + second) by {
            assert(after.log().take(middle.log().len() as int) == middle.log());
        }
        lemma_held_joins(disk, first, second);
        if self.honest(after, disk) && middle.state().superblock == self.state().superblock
            && middle.state().groups == self.state().groups {
            lemma_truthful_splits(self.state(), middle.state(), disk, first, second);
        }
    }

    /// Calls that write nothing leave a device as it was.
    pub(crate) proof fn lemma_asking_leaves_device(&self, after: &Self, disk: Disk)
        requires
            self.only_asked(after),
        ensures
            self.left_on(after, disk) == disk,
    {
        let calls = since(self.log(), after.log());
        assert forall|k: int| 0 <= k < calls.len() implies !writes(#[trigger] calls[k]) by {
            assert(calls[k] == after.log()[self.log().len() + k]);
        }
        lemma_held_without_writes(disk, calls);
    }

    /// An inode that was seen is what the device holds.
    pub(crate) proof fn lemma_seen_is_on_device(&self, after: &Self, inode: InodeRef, disk: Disk)
        requires
            self.sees(after, inode),
            self.honest(after, disk),
            self.state().batch().len() == 0,
        ensures
            self.state().inode_position(inode.id) is Some,
            links_of(inode.inode@) == links_on(disk, self.state(), inode.id),
    {
        let (before, read) = choose|before: Self, read: Self|
            {
                &&& self.only_asked(&before)
                &&& #[trigger] before.inode_read(&read, inode.id, Ok(inode))
                &&& read.only_asked(after)
            };
        lemma_inode_stays_in_its_block(self.state(), inode.id);
        let (home, at) = self.state().inode_position(inode.id)->0;
        let reply = choose|reply: Result<Block>|
            {
                &&& #[trigger] before.block_read(&read, home, reply)
                &&& inode_found(bytes_read(reply), at, inode.id, Ok(inode))
            };
        let call = Event::ReadBlock { id: home, reply };
        assert(read.log() == before.log().push(call));
        assert(read.log().take(before.log().len() as int) =~= before.log());
        self.lemma_asking_leaves_device(&before, disk);
        lemma_extends(before.log(), read.log(), after.log());
        self.lemma_device_joins(&before, after, disk);
        before.lemma_device_joins(&read, after, disk);
        let calls = since(before.log(), read.log());
        assert(calls =~= seq![call]);
        assert(calls.take(0) =~= Seq::<Event>::empty());
        assert(tells_links(before.state(), calls[0], held(disk, calls.take(0))));
        assert(before.state().inode_position(inode.id) == Some((home, at)));
        assert(le16_at(inode.inode@, 26) == le16_at(reply->Ok_0.data@, at + 26));
    }

    /// A call of the layers leaves what a device holds of inodes.
    pub(crate) proof fn lemma_rewriting_only_asks(
        &self,
        after: &Self,
        dir: InodeRef,
        name: Seq<char>,
        target: InodeId,
        kind: FileType,
    )
        requires
            self.entry_rewritten(after, dir, name, target, kind, Ok(())),
        ensures
            self.only_asked(after),
    {
        let (asked, reply) = choose|asked: Self, reply: Result<()>|
            {
                &&& #[trigger] self.asked(
                    &asked,
                    LayerCall::ReplaceEntry { dir, name, target, kind, reply },
                )
                &&& asked.or_gave_out(after, reply, Ok(()))
            };
        let call = LayerCall::ReplaceEntry { dir, name, target, kind, reply };
        self.lemma_call_only_asks(&asked, Event::Layer { call });
        asked.lemma_idle_only_asks(after);
        self.lemma_calls_join(&asked, after);
    }

    /// A number of names that was written is what the device holds, and of no other inode does the
    /// number change.
    pub(crate) proof fn lemma_links_written_on_device(
        &self,
        after: &Self,
        inode: InodeRef,
        links: u16,
        sealed: InodeRef,
        disk: Disk,
    )
        requires
            self.links_written(after, inode, links, sealed, Ok(())),
            self.state().batch().len() == 0,
        ensures
            extends(self.log(), after.log()),
            after.state() == self.state(),
            sealed.id == inode.id,
            links_of(sealed.inode@) == links,
            self.state().inode_position(inode.id) is Some,
            self.honest(after, disk) && inodes_apart(self.state()) ==> forall|id: InodeId|
                #[trigger] links_on(self.left_on(after, disk), self.state(), id) == if id
                    == inode.id {
                    links
                } else {
                    links_on(disk, self.state(), id)
                },
    {
        broadcast use crate::bytes::lemma_le16_round_trip;

        let outcome = Ok::<(), Ext4Error>(());
        let (written, counted, reply) = choose|written: Self, counted: InodeRef, reply: Result<()>|
            {
                &&& #[trigger] self.inode_written(&written, counted, sealed, reply)
                &&& counted.id == inode.id
                &&& counted.inode@ == splice(inode.inode@, 26, le16(links))
                &&& written.or_gave_out(after, reply, outcome)
            };
        lemma_checksum_keeps_inode(counted, sealed, self.state().superblock);
        assert(crate::inode::attributes_of(sealed).links == crate::inode::attributes_of(
            counted,
        ).links);
        lemma_inode_stays_in_its_block(self.state(), inode.id);
        let (home, at) = self.state().inode_position(inode.id)->0;
        let (read, answer) = choose|read: Self, answer: Result<Block>|
            {
                &&& #[trigger] self.block_read(&read, home, answer)
                &&& match answer {
                    Ok(block) => read.did(
                        &written,
                        Event::WriteBlock {
                            id: block.id,
                            data: splice(block.data@, at, sealed.inode@),
                            reply,
                        },
                    ),
                    Err(error) => read.idle(&written) && reply == Err::<(), Ext4Error>(error),
                }
            };
        assert(!holds_home(self.state().batch(), home));
        let block = answer->Ok_0;
        let load = Event::ReadBlock { id: home, reply: answer };
        let data = splice(block.data@, at, sealed.inode@);
        let write = Event::WriteBlock { id: block.id, data, reply };
        assert(after.log() == self.log().push(load).push(write));
        assert(after.log().take(self.log().len() as int) =~= self.log());
        let calls = since(self.log(), after.log());
        assert(calls =~= seq![load, write]);
        if self.honest(after, disk) && inodes_apart(self.state()) {
            assert(calls.take(0) =~= Seq::<Event>::empty());
            assert(tells_links(self.state(), calls[0], held(disk, calls.take(0))));
            assert(calls.skip(1) =~= seq![write]);
            assert(calls.skip(1).skip(1) =~= Seq::<Event>::empty());
            reveal_with_fuel(held, 3);
            let last = self.left_on(after, disk);
            assert(last == disk.insert(home, data));
            assert forall|id: InodeId| #[trigger] links_on(last, self.state(), id) == if id
                == inode.id {
                links
            } else {
                links_on(disk, self.state(), id)
            } by {
                lemma_inode_stays_in_its_block(self.state(), id);
                if id == inode.id {
                    assert(le16_at(data, at + 26) == le16_at(sealed.inode@, 26));
                } else if let Some((table, there)) = self.state().inode_position(id) {
                    if table == home {
                        assert(self.state().inode_position(inode.id) is Some);
                        assert(le16_at(data, there + 26) == le16_at(block.data@, there + 26));
                    }
                }
            }
        }
    }

    /// A directory that changed its parent takes one name from the old parent, and gives one to
    /// the new.
    pub(crate) proof fn lemma_crossing_on_device(
        &self,
        after: &Self,
        child: InodeRef,
        new_parent: InodeId,
        from: InodeRef,
        from_after: InodeRef,
        to: InodeRef,
        to_after: InodeRef,
        disk: Disk,
    )
        requires
            self.dir_crossed(
                after,
                child,
                new_parent,
                from,
                from_after,
                to,
                to_after,
                Ok(()),
            ),
            self.state().batch().len() == 0,
            from.id != to.id,
        ensures
            extends(self.log(), after.log()),
            after.state() == self.state(),
            from_after.id == from.id,
            to_after.id == to.id,
            links_of(from_after.inode@) == links_of(from.inode@).wrapping_sub(1),
            links_of(to_after.inode@) == links_of(to.inode@).wrapping_add(1),
            self.honest(after, disk) && inodes_apart(self.state()) ==> forall|id: InodeId|
                #[trigger] links_on(self.left_on(after, disk), self.state(), id) == if id
                    == from.id {
                    links_of(from_after.inode@)
                } else if id == to.id {
                    links_of(to_after.inode@)
                } else {
                    links_on(disk, self.state(), id)
                },
    {
        let outcome = Ok::<(), Ext4Error>(());
        let (turned, reply) = choose|turned: Self, reply: Result<()>|
            {
                &&& #[trigger] self.entry_rewritten(
                    &turned,
                    child,
                    ".."@,
                    new_parent,
                    FileType::Directory,
                    reply,
                )
                &&& match reply {
                    Ok(_) => turned.parents_counted(
                        after,
                        from,
                        from_after,
                        to,
                        to_after,
                        outcome,
                    ),
                    Err(error) => {
                        &&& turned.idle(after)
                        &&& from_after == from
                        &&& to_after == to
                        &&& outcome == Err::<(), Ext4Error>(error)
                    },
                }
            };
        match reply {
            Ok(done) => {
                assert(done == ());
            },
            Err(_) => {},
        }
        self.lemma_rewriting_only_asks(&turned, child, ".."@, new_parent, FileType::Directory);
        let fewer = links_of(from.inode@).wrapping_sub(1);
        let more = links_of(to.inode@).wrapping_add(1);
        let (lost, said) = choose|lost: Self, said: Result<()>|
            {
                &&& #[trigger] turned.links_written(&lost, from, fewer, from_after, said)
                &&& match said {
                    Ok(_) => lost.links_written(after, to, more, to_after, outcome),
                    Err(error) => {
                        &&& lost.idle(after)
                        &&& to_after == to
                        &&& outcome == Err::<(), Ext4Error>(error)
                    },
                }
            };
        match said {
            Ok(done) => {
                assert(done == ());
            },
            Err(_) => {},
        }
        self.lemma_asking_leaves_device(&turned, disk);
        turned.lemma_links_written_on_device(&lost, from, fewer, from_after, disk);
        let middle = turned.left_on(&lost, disk);
        lost.lemma_links_written_on_device(after, to, more, to_after, middle);
        turned.lemma_device_joins(&lost, after, disk);
        self.lemma_device_joins(&turned, after, disk);
        if self.honest(after, disk) && inodes_apart(self.state()) {
            assert forall|id: InodeId| #[trigger]
                links_on(self.left_on(after, disk), self.state(), id) == if id == from.id {
                    links_of(from_after.inode@)
                } else if id == to.id {
                    links_of(to_after.inode@)
                } else {
                    links_on(disk, self.state(), id)
                } by {
                assert(links_on(middle, self.state(), id) == if id == from.id {
                    fewer
                } else {
                    links_on(disk, self.state(), id)
                });
            }
        }
    }
}

/// Exchanging names.
impl<D: BlockDevice, V: Volume<D>> Ext4<D, V> {
    /// The second directory of an exchange takes a name from the second parent, and gives it to the
    /// first.
    proof fn lemma_return_on_device(
        &self,
        after: &Self,
        first: InodeRef,
        second: InodeRef,
        swap: Exchange,
        disk: Disk,
    )
        requires
            self.swap_returned(after, first, second, swap, Ok(())),
            self.state().batch().len() == 0,
            first.id != second.id,
        ensures
            extends(self.log(), after.log()),
            after.state() == self.state(),
            self.honest(after, disk) && inodes_apart(self.state()) && links_of(first.inode@)
                == links_on(disk, self.state(), first.id) && links_of(second.inode@) == links_on(
                disk,
                self.state(),
                second.id,
            ) ==> forall|id: InodeId| #[trigger]
                links_on(self.left_on(after, disk), self.state(), id) == if id == first.id {
                    recount(links_of(first.inode@), directory(swap.target), false)
                } else if id == second.id {
                    recount(links_of(second.inode@), false, directory(swap.target))
                } else {
                    links_on(disk, self.state(), id)
                },
    {
        if directory(swap.target) {
            let (from_after, to_after) = choose|from_after: InodeRef, to_after: InodeRef| #[trigger]
                self.dir_crossed(
                    after,
                    swap.target,
                    swap.parent,
                    second,
                    from_after,
                    first,
                    to_after,
                    Ok(()),
                );
            self.lemma_crossing_on_device(
                after,
                swap.target,
                swap.parent,
                second,
                from_after,
                first,
                to_after,
                disk,
            );
        } else {
            self.lemma_idle_only_asks(after);
            self.lemma_asking_leaves_device(after, disk);
        }
    }

    /// Both directories of an exchange take a name from their old parents, and give it to the new.
    proof fn lemma_swap_on_device(
        &self,
        after: &Self,
        first: InodeRef,
        second: InodeRef,
        swap: Exchange,
        disk: Disk,
    )
        requires
            self.swap_gone(after, first, second, swap, Ok(())),
            self.state().batch().len() == 0,
            first.id != second.id,
        ensures
            extends(self.log(), after.log()),
            after.state() == self.state(),
            self.honest(after, disk) && inodes_apart(self.state()) && links_of(first.inode@)
                == links_on(disk, self.state(), first.id) && links_of(second.inode@) == links_on(
                disk,
                self.state(),
                second.id,
            ) ==> forall|id: InodeId| #[trigger]
                links_on(self.left_on(after, disk), self.state(), id) == if id == first.id {
                    recount(
                        links_of(first.inode@),
                        directory(swap.target),
                        directory(swap.source),
                    )
                } else if id == second.id {
                    recount(
                        links_of(second.inode@),
                        directory(swap.source),
                        directory(swap.target),
                    )
                } else {
                    links_on(disk, self.state(), id)
                },
    {
        let outcome = Ok::<(), Ext4Error>(());
        if directory(swap.source) {
            let (moved, first_after, second_after, reply) = choose|
                moved: Self,
                first_after: InodeRef,
                second_after: InodeRef,
                reply: Result<()>,
            |
                {
                    &&& #[trigger] self.dir_crossed(
                        &moved,
                        swap.source,
                        swap.new_parent,
                        first,
                        first_after,
                        second,
                        second_after,
                        reply,
                    )
                    &&& match reply {
                        Ok(_) => moved.swap_returned(
                            after,
                            first_after,
                            second_after,
                            swap,
                            outcome,
                        ),
                        Err(error) => moved.idle(after) && outcome == Err::<(), Ext4Error>(error),
                    }
                };
            match reply {
                Ok(done) => {
                    assert(done == ());
                },
                Err(_) => {},
            }
            self.lemma_crossing_on_device(
                &moved,
                swap.source,
                swap.new_parent,
                first,
                first_after,
                second,
                second_after,
                disk,
            );
            let middle = self.left_on(&moved, disk);
            moved.lemma_return_on_device(after, first_after, second_after, swap, middle);
            self.lemma_device_joins(&moved, after, disk);
            if self.honest(after, disk) && inodes_apart(self.state()) {
                assert(links_on(middle, self.state(), first.id) == links_of(first_after.inode@));
                assert(links_on(middle, self.state(), second.id) == links_of(second_after.inode@));
                assert forall|id: InodeId| id != first.id && id != second.id implies #[trigger]
                    links_on(self.left_on(after, disk), self.state(), id) == links_on(
                    disk,
                    self.state(),
                    id,
                ) by {
                    assert(links_on(middle, self.state(), id) == links_on(disk, self.state(), id));
                }
            }
        } else {
            self.lemma_return_on_device(after, first, second, swap, disk);
        }
    }

    /// What writing both names of an exchange does to the numbers of names.
    proof fn lemma_swap_written_on_device(
        &self,
        after: &Self,
        dirs: RenameDirs,
        name: Seq<char>,
        new_name: Seq<char>,
        swap: Exchange,
        disk: Disk,
    )
        requires
            self.swap_written(after, dirs, name, new_name, swap, Ok(())),
            self.state().batch().len() == 0,
            dirs.1 matches Some(second) ==> dirs.0.id != second.id,
        ensures
            extends(self.log(), after.log()),
            after.state() == self.state(),
            self.honest(after, disk) && inodes_apart(self.state()) && links_of(dirs.0.inode@)
                == links_on(disk, self.state(), dirs.0.id) && links_of(target_of(dirs).inode@)
                == links_on(disk, self.state(), target_of(dirs).id) ==> forall|id: InodeId|
                #[trigger] links_on(self.left_on(after, disk), self.state(), id) == if dirs.1
                    is None {
                    links_on(disk, self.state(), id)
                } else if id == dirs.0.id {
                    recount(
                        links_on(disk, self.state(), id),
                        directory(swap.target),
                        directory(swap.source),
                    )
                } else if id == target_of(dirs).id {
                    recount(
                        links_on(disk, self.state(), id),
                        directory(swap.source),
                        directory(swap.target),
                    )
                } else {
                    links_on(disk, self.state(), id)
                },
    {
        let outcome = Ok::<(), Ext4Error>(());
        let (one, reply) = choose|one: Self, reply: Result<()>|
            {
                &&& #[trigger] self.entry_rewritten(
                    &one,
                    dirs.0,
                    name,
                    swap.target.id,
                    swap.target.inode.kind(),
                    reply,
                )
                &&& match reply {
                    Ok(_) => one.swap_second(after, dirs, new_name, swap, outcome),
                    Err(error) => one.idle(after) && outcome == Err::<(), Ext4Error>(error),
                }
            };
        match reply {
            Ok(done) => {
                assert(done == ());
            },
            Err(_) => {},
        }
        self.lemma_rewriting_only_asks(
            &one,
            dirs.0,
            name,
            swap.target.id,
            swap.target.inode.kind(),
        );
        let (both, said) = choose|both: Self, said: Result<()>|
            {
                &&& #[trigger] one.entry_rewritten(
                    &both,
                    target_of(dirs),
                    new_name,
                    swap.source.id,
                    swap.source.inode.kind(),
                    said,
                )
                &&& match said {
                    Ok(_) => both.swap_crossed(after, dirs, swap, outcome),
                    Err(error) => both.idle(after) && outcome == Err::<(), Ext4Error>(error),
                }
            };
        match said {
            Ok(done) => {
                assert(done == ());
            },
            Err(_) => {},
        }
        one.lemma_rewriting_only_asks(
            &both,
            target_of(dirs),
            new_name,
            swap.source.id,
            swap.source.inode.kind(),
        );
        self.lemma_calls_join(&one, &both);
        self.lemma_asking_leaves_device(&both, disk);
        match dirs.1 {
            None => {
                both.lemma_idle_only_asks(after);
                both.lemma_asking_leaves_device(after, disk);
            },
            Some(second) => {
                both.lemma_swap_on_device(after, dirs.0, second, swap, disk);
            },
        }
        self.lemma_device_joins(&both, after, disk);
    }
}

/// What an exchange came upon: the directories, and the inodes of both names. Nothing was written
/// up to the state in which the names begin to change.
impl<D: BlockDevice, V: Volume<D>> Ext4<D, V> {
    /// Where an exchange begins to write, once both inodes were read.
    proof fn lemma_swap_start(
        &self,
        after: &Self,
        dirs: RenameDirs,
        name: Seq<char>,
        new_name: Seq<char>,
        swap: Exchange,
    ) -> (start: Self)
        requires
            self.swap_decided(after, dirs, name, new_name, swap, Ok(())),
        ensures
            self.only_asked(&start),
            if swap.source.id == swap.target.id {
                start.idle(after)
            } else {
                start.swap_written(after, dirs, name, new_name, swap, Ok(()))
            },
    {
        let outcome = Ok::<(), Ext4Error>(());
        if swap.source.id == swap.target.id {
            self.lemma_idle_only_asks(self);
            *self
        } else {
            let (checked, crossing, reply) = choose|
                checked: Self,
                crossing: bool,
                reply: Result<()>,
            |
                {
                    &&& #[trigger] self.cycle_checked(
                        &checked,
                        swap.source,
                        swap.new_parent,
                        crossing,
                        reply,
                    )
                    &&& crossing == (swap.parent != swap.new_parent)
                    &&& match reply {
                        Ok(_) => checked.swap_back_checked(
                            after,
                            dirs,
                            name,
                            new_name,
                            swap,
                            crossing,
                            outcome,
                        ),
                        Err(error) => checked.idle(after) && outcome == Err::<(), Ext4Error>(
                            error,
                        ),
                    }
                };
            self.lemma_cycle_check_keeps_names(
                &checked,
                swap.source,
                swap.new_parent,
                crossing,
                reply,
            );
            let (back, said) = choose|back: Self, said: Result<()>|
                {
                    &&& #[trigger] checked.cycle_checked(
                        &back,
                        swap.target,
                        swap.parent,
                        crossing,
                        said,
                    )
                    &&& match said {
                        Ok(_) => back.swap_written(after, dirs, name, new_name, swap, outcome),
                        Err(error) => back.idle(after) && outcome == Err::<(), Ext4Error>(error),
                    }
                };
            checked.lemma_cycle_check_keeps_names(
                &back,
                swap.target,
                swap.parent,
                crossing,
                said,
            );
            self.lemma_calls_join(&checked, &back);
            back
        }
    }

    /// Where an exchange begins to write, and what it came upon by then.
    proof fn lemma_exchange_start(
        &self,
        after: &Self,
        parent: InodeId,
        name: Seq<char>,
        new_parent: InodeId,
        new_name: Seq<char>,
        names: Names,
    ) -> (found: (Self, RenameDirs, Exchange))
        requires
            self.names_exchanged(after, parent, name, new_parent, new_name, Ok(())),
        ensures
            ({
                let (start, dirs, swap) = found;
                &&& self.only_asked(&start)
                &&& dirs.0.id == parent
                &&& target_of(dirs).id == new_parent
                &&& dirs.1 is Some <==> parent != new_parent
                &&& self.sees(&start, dirs.0)
                &&& self.sees(&start, target_of(dirs))
                &&& self.sees(&start, swap.source)
                &&& self.sees(&start, swap.target)
                &&& self.speaks_by(&start, names) ==> {
                    &&& names.contains_key((parent, name))
                    &&& names[(parent, name)] == swap.source.id
                    &&& names.contains_key((new_parent, new_name))
                    &&& names[(new_parent, new_name)] == swap.target.id
                }
                &&& if swap.source.id == swap.target.id {
                    start.idle(after)
                } else {
                    start.swap_written(after, dirs, name, new_name, swap, Ok(()))
                }
            }),
    {
        let outcome = Ok::<(), Ext4Error>(());
        let (opened, pair) = choose|opened: Self, pair: Result<RenameDirs>|
            {
                &&& #[trigger] self.dirs_opened(&opened, parent, new_parent, pair)
                &&& match pair {
                    Ok(dirs) => opened.swap_found(
                        after,
                        dirs,
                        parent,
                        name,
                        new_parent,
                        new_name,
                        outcome,
                    ),
                    Err(error) => opened.idle(after) && outcome == Err::<(), Ext4Error>(error),
                }
            };
        let dirs = pair->Ok_0;
        self.lemma_dirs_opened_keep_names(&opened, parent, new_parent, dirs);
        let (one, old_id) = choose|one: Self, old_id: Result<InodeId>|
            {
                &&& #[trigger] opened.asked(
                    &one,
                    LayerCall::FindEntry { dir: dirs.0, name, reply: old_id },
                )
                &&& match old_id {
                    Ok(old_id) => one.swap_second_found(
                        after,
                        dirs,
                        parent,
                        name,
                        new_parent,
                        new_name,
                        old_id,
                        outcome,
                    ),
                    Err(error) => one.idle(after) && outcome == Err::<(), Ext4Error>(error),
                }
            };
        let find = Event::Layer {
            call: LayerCall::FindEntry { dir: dirs.0, name, reply: old_id },
        };
        opened.lemma_call_keeps_names(&one, find);
        opened.lemma_one_call(&one, find, names);
        opened.lemma_call_only_asks(&one, find);
        let (both, new_id) = choose|both: Self, new_id: Result<InodeId>|
            {
                &&& #[trigger] one.asked(
                    &both,
                    LayerCall::FindEntry { dir: target_of(dirs), name: new_name, reply: new_id },
                )
                &&& match new_id {
                    Ok(new_id) => both.swap_read(
                        after,
                        parent,
                        name,
                        new_parent,
                        new_name,
                        old_id->Ok_0,
                        new_id,
                        outcome,
                    ),
                    Err(error) => both.idle(after) && outcome == Err::<(), Ext4Error>(error),
                }
            };
        let find_second = Event::Layer {
            call: LayerCall::FindEntry { dir: target_of(dirs), name: new_name, reply: new_id },
        };
        one.lemma_call_keeps_names(&both, find_second);
        one.lemma_one_call(&both, find_second, names);
        one.lemma_call_only_asks(&both, find_second);
        let (again, start, folders, swap) = both.lemma_swap_read_start(
            after,
            parent,
            name,
            new_parent,
            new_name,
            old_id->Ok_0,
            new_id->Ok_0,
        );
        self.lemma_calls_join(&opened, &one);
        self.lemma_calls_join(&one, &both);
        self.lemma_calls_join(&both, &start);
        both.lemma_calls_join(&again, &start);
        start.lemma_idle_only_asks(&start);
        self.lemma_seen_on_the_way(&both, &start, &start, folders.0);
        self.lemma_seen_on_the_way(&both, &start, &start, target_of(folders));
        self.lemma_seen_on_the_way(&both, &start, &start, swap.source);
        self.lemma_seen_on_the_way(&both, &start, &start, swap.target);
        self.lemma_joins(&opened, &one, names);
        opened.lemma_joins(&one, &both, names);
        self.lemma_joins(&opened, &both, names);
        self.lemma_joins(&both, &start, names);
        (start, folders, swap)
    }

    /// Where an exchange begins to write, once both names were found.
    proof fn lemma_swap_read_start(
        &self,
        after: &Self,
        parent: InodeId,
        name: Seq<char>,
        new_parent: InodeId,
        new_name: Seq<char>,
        old_id: InodeId,
        new_id: InodeId,
    ) -> (found: (Self, Self, RenameDirs, Exchange))
        requires
            self.swap_read(
                after,
                parent,
                name,
                new_parent,
                new_name,
                old_id,
                new_id,
                Ok(()),
            ),
        ensures
            ({
                let (seen, start, dirs, swap) = found;
                &&& self.only_asked(&seen)
                &&& seen.only_asked(&start)
                &&& self.only_asked(&start)
                &&& dirs.0.id == parent
                &&& target_of(dirs).id == new_parent
                &&& dirs.1 is Some <==> parent != new_parent
                &&& swap.source.id == old_id
                &&& swap.target.id == new_id
                &&& self.sees(&start, dirs.0)
                &&& self.sees(&start, target_of(dirs))
                &&& self.sees(&start, swap.source)
                &&& self.sees(&start, swap.target)
                &&& if swap.source.id == swap.target.id {
                    start.idle(after)
                } else {
                    start.swap_written(after, dirs, name, new_name, swap, Ok(()))
                }
            }),
    {
        let outcome = Ok::<(), Ext4Error>(());
        let (read, pair) = choose|read: Self, pair: Result<RenameDirs>|
            {
                &&& #[trigger] self.dirs_read(&read, parent, new_parent, pair)
                &&& match pair {
                    Ok(dirs) => read.swap_opened(
                        after,
                        dirs,
                        parent,
                        name,
                        new_parent,
                        new_name,
                        old_id,
                        new_id,
                        outcome,
                    ),
                    Err(error) => read.idle(after) && outcome == Err::<(), Ext4Error>(error),
                }
            };
        let dirs = pair->Ok_0;
        self.lemma_dirs_read_keep_names(&read, parent, new_parent, dirs);
        let (seen, both) = choose|seen: Self, both: Result<(InodeRef, InodeRef)>|
            {
                &&& #[trigger] read.pair_read(&seen, old_id, new_id, both)
                &&& match both {
                    Ok(found) => seen.swap_decided(
                        after,
                        dirs,
                        name,
                        new_name,
                        (Exchange { parent, new_parent, source: found.0, target: found.1 }),
                        outcome,
                    ),
                    Err(error) => seen.idle(after) && outcome == Err::<(), Ext4Error>(error),
                }
            };
        read.lemma_pair_read_keeps_names(&seen, old_id, new_id, both);
        let inodes = both->Ok_0;
        let swap = Exchange { parent, new_parent, source: inodes.0, target: inodes.1 };
        let start = seen.lemma_swap_start(after, dirs, name, new_name, swap);
        self.lemma_idle_only_asks(self);
        self.lemma_calls_join(&read, &seen);
        self.lemma_calls_join(&seen, &start);
        read.lemma_calls_join(&seen, &start);
        self.lemma_seen_on_the_way(self, &read, &start, dirs.0);
        self.lemma_seen_on_the_way(self, &read, &start, target_of(dirs));
        self.lemma_seen_on_the_way(&read, &seen, &start, swap.source);
        self.lemma_seen_on_the_way(&read, &seen, &start, swap.target);
        (seen, start, dirs, swap)
    }
}

/// The subdirectories of a directory, by their names. What a directory calls itself and its parent
/// does not count.
pub open spec fn subdirs(names: Names, kinds: Set<InodeId>, dir: InodeId) -> Set<Seq<char>> {
    Set::new(
        |word: Seq<char>|
            {
                &&& names.contains_key((dir, word))
                &&& word != "."@
                &&& word != ".."@
                &&& kinds.contains(names[(dir, word)])
            },
    )
}

/// The names of a directory beyond those that its subdirectories have for it.
pub open spec fn own_links(
    disk: Disk,
    places: FsState,
    names: Names,
    kinds: Set<InodeId>,
    dir: InodeId,
) -> int {
    links_on(disk, places, dir) - subdirs(names, kinds, dir).len()
}

/// Whether a name is that of a directory for itself or for its parent.
pub open spec fn dotted(name: Seq<char>) -> bool {
    name == "."@ || name == ".."@
}

/// A name that comes to stand for an inode counts where that is a directory, and what it stood for
/// counts no more.
pub(crate) proof fn lemma_subdirs_with(
    names: Names,
    kinds: Set<InodeId>,
    dir: InodeId,
    word: Seq<char>,
    child: InodeId,
    other: InodeId,
)
    requires
        !dotted(word),
        subdirs(names, kinds, other).finite(),
    ensures
        ({
            let before = subdirs(names, kinds, other);
            let after = subdirs(names.insert((dir, word), child), kinds, other);
            &&& after.finite()
            &&& other != dir ==> after == before
            &&& other == dir ==> after.len() == before.len() + (if kinds.contains(child) {
                1int
            } else {
                0
            }) - (if before.contains(word) {
                1int
            } else {
                0
            })
        }),
{
    let before = subdirs(names, kinds, other);
    let after = subdirs(names.insert((dir, word), child), kinds, other);
    if other != dir {
        assert(after =~= before);
    } else if kinds.contains(child) {
        assert(after =~= before.insert(word));
    } else {
        assert(after =~= before.remove(word));
    }
}

/// A name that stands for nothing any more does not count.
pub(crate) proof fn lemma_subdirs_without(
    names: Names,
    kinds: Set<InodeId>,
    dir: InodeId,
    word: Seq<char>,
    other: InodeId,
)
    requires
        subdirs(names, kinds, other).finite(),
    ensures
        ({
            let before = subdirs(names, kinds, other);
            let after = subdirs(names.remove((dir, word)), kinds, other);
            &&& after.finite()
            &&& other != dir ==> after == before
            &&& other == dir ==> after.len() == before.len() - (if before.contains(word) {
                1int
            } else {
                0
            })
        }),
{
    let before = subdirs(names, kinds, other);
    let after = subdirs(names.remove((dir, word)), kinds, other);
    if other != dir {
        assert(after =~= before);
    } else {
        assert(after =~= before.remove(word));
    }
}

/// What a directory calls its parent does not count.
pub(crate) proof fn lemma_subdirs_of_turned(
    names: Names,
    kinds: Set<InodeId>,
    child: InodeId,
    parent: InodeId,
    crossed: bool,
    other: InodeId,
)
    ensures
        subdirs(turned(names, child, parent, crossed), kinds, other) == subdirs(
            names,
            kinds,
            other,
        ),
{
    assert(subdirs(turned(names, child, parent, crossed), kinds, other) =~= subdirs(
        names,
        kinds,
        other,
    ));
}

/// The number of names of an inode after an exchange of two names, which stood for `source` and
/// `target`.
pub open spec fn exchanged_links(
    links: u16,
    id: InodeId,
    parent: InodeId,
    new_parent: InodeId,
    source: InodeId,
    target: InodeId,
    kinds: Set<InodeId>,
) -> u16 {
    if parent == new_parent || source == target {
        links
    } else if id == parent {
        recount(links, kinds.contains(target), kinds.contains(source))
    } else if id == new_parent {
        recount(links, kinds.contains(source), kinds.contains(target))
    } else {
        links
    }
}

/// Where inodes stand is all that matters of a state for their numbers of names.
pub(crate) proof fn lemma_same_links(disk: Disk, places: FsState, others: FsState, id: InodeId)
    requires
        places.superblock == others.superblock,
        places.groups == others.groups,
    ensures
        links_on(disk, places, id) == links_on(disk, others, id),
{
    assert(places.inode_position(id) == others.inode_position(id));
}

impl<D: BlockDevice, V: Volume<D>> Ext4<D, V> {
    /// Whether no images wait for a commit.
    pub open spec fn nothing_waits(&self) -> bool {
        self.state().mode matches MetadataMutationMode::Journal(journal)
            ==> journal.context().deferred_transaction is None
    }

    /// Where no images wait, coming into the barrier calls nothing.
    pub(crate) proof fn lemma_entered_at_rest(&self, inside: &Self)
        requires
            self.inv(),
            self.direct_entered(inside, Ok(())),
            self.nothing_waits(),
        ensures
            inside.log() == self.log(),
            inside.state().batch().len() == 0,
            !self.state().gate.exclusive,
            inside.state() == (FsState {
                gate: MetadataMutationGate {
                    direct: (self.state().gate.direct + 1) as u32,
                    exclusive: false,
                },
                ..self.state()
            }),
            self.state().gate.direct < u32::MAX,
    {
    }

    /// What an exchange does to the numbers of names, inside the barrier.
    proof fn lemma_exchange_recounts_inside(
        &self,
        after: &Self,
        parent: InodeId,
        name: Seq<char>,
        new_parent: InodeId,
        new_name: Seq<char>,
        names: Names,
        kinds: Set<InodeId>,
        disk: Disk,
    )
        requires
            self.names_exchanged(after, parent, name, new_parent, new_name, Ok(())),
            self.state().batch().len() == 0,
        ensures
            extends(self.log(), after.log()),
            after.state() == self.state(),
            self.speaks_by(after, names) && self.kinds_told(after, kinds) && self.honest(after, disk)
                && inodes_apart(self.state()) ==> forall|id: InodeId| #[trigger]
                links_on(self.left_on(after, disk), self.state(), id) == exchanged_links(
                    links_on(disk, self.state(), id),
                    id,
                    parent,
                    new_parent,
                    names[(parent, name)],
                    names[(new_parent, new_name)],
                    kinds,
                ),
    {
        let (start, dirs, swap) = self.lemma_exchange_start(
            after,
            parent,
            name,
            new_parent,
            new_name,
            names,
        );
        if swap.source.id == swap.target.id {
            start.lemma_idle_only_asks(after);
            start.lemma_asking_leaves_device(after, disk);
        } else {
            start.lemma_swap_written_on_device(after, dirs, name, new_name, swap, disk);
        }
        self.lemma_asking_leaves_device(&start, disk);
        self.lemma_device_joins(&start, after, disk);
        if self.speaks_by(after, names) && self.kinds_told(after, kinds) && self.honest(after, disk)
            && inodes_apart(self.state()) {
            self.lemma_joins(&start, after, names);
            self.lemma_kind_of_seen(&start, after, swap.source, kinds);
            self.lemma_kind_of_seen(&start, after, swap.target, kinds);
            self.lemma_seen_is_on_device(&start, dirs.0, disk);
            self.lemma_seen_is_on_device(&start, target_of(dirs), disk);
        }
    }

    /// An exchange changes the numbers of names of the two directories alone: a directory that
    /// changes its parent takes one from the old, and gives one to the new.
    pub proof fn lemma_exchange_recounts(
        &self,
        after: &Self,
        parent: InodeId,
        name: Seq<char>,
        new_parent: InodeId,
        new_name: Seq<char>,
        names: Names,
        kinds: Set<InodeId>,
        disk: Disk,
    )
        requires
            self.inv(),
            self.exchange_made(after, parent, name, new_parent, new_name, Ok(())),
            self.speaks_by(after, names),
            self.kinds_told(after, kinds),
            self.honest(after, disk),
            self.nothing_waits(),
            inodes_apart(self.state()),
        ensures
            extends(self.log(), after.log()),
            after.state() == self.state(),
            forall|id: InodeId| #[trigger]
                links_on(self.left_on(after, disk), self.state(), id) == exchanged_links(
                    links_on(disk, self.state(), id),
                    id,
                    parent,
                    new_parent,
                    names[(parent, name)],
                    names[(new_parent, new_name)],
                    kinds,
                ),
    {
        let work = |inside: Self, left: Self, outcome: Result<()>|
            inside.names_exchanged(&left, parent, name, new_parent, new_name, outcome);
        let stages = self.lemma_direct_work(after, work, Ok(()));
        let (inside, left) = stages->0;
        self.lemma_entered_at_rest(&inside);
        inside.lemma_exchange_recounts_inside(
            &left,
            parent,
            name,
            new_parent,
            new_name,
            names,
            kinds,
            disk,
        );
        self.lemma_work_between(&inside, &left, after, names);
        self.lemma_kinds_inside(&inside, after, kinds);
        inside.lemma_kinds_so_far(&left, after, kinds);
        self.lemma_released(&inside, &left, after, disk);
        let last = inside.left_on(&left, disk);
        assert forall|id: InodeId| #[trigger]
            links_on(self.left_on(after, disk), self.state(), id) == exchanged_links(
                links_on(disk, self.state(), id),
                id,
                parent,
                new_parent,
                names[(parent, name)],
                names[(new_parent, new_name)],
                kinds,
            ) by {
            lemma_same_links(last, inside.state(), self.state(), id);
            lemma_same_links(disk, inside.state(), self.state(), id);
        }
    }

    /// What a writer did inside the barrier is all that it did, where no images waited.
    pub(crate) proof fn lemma_released(&self, inside: &Self, left: &Self, after: &Self, disk: Disk)
        requires
            inside.log() == self.log(),
            inside.state().superblock == self.state().superblock,
            inside.state().groups == self.state().groups,
            left.state().superblock == self.state().superblock,
            left.state().groups == self.state().groups,
            extends(inside.log(), left.log()),
            left.direct_left(after),
        ensures
            extends(left.log(), after.log()),
            self.left_on(after, disk) == inside.left_on(left, disk),
            self.honest(after, disk) ==> inside.honest(left, disk),
            inodes_apart(self.state()) ==> inodes_apart(inside.state()),
    {
        let leave = Event::Layer { call: LayerCall::Released };
        assert(after.log().take(left.log().len() as int) =~= left.log());
        inside.lemma_device_joins(left, after, disk);
        if self.honest(after, disk) {
            let calls = since(self.log(), after.log());
            assert(calls + Seq::<Event>::empty() =~= calls);
            assert(Seq::<Event>::empty() + calls =~= calls);
            lemma_truthful_splits(
                self.state(),
                inside.state(),
                disk,
                Seq::<Event>::empty(),
                calls,
            );
            assert(inside.honest(after, disk));
        }
        let last = inside.left_on(left, disk);
        assert(left.left_on(after, last) == last) by {
            let calls = since(left.log(), after.log());
            assert(calls =~= seq![leave]);
            assert(calls.skip(1) =~= Seq::<Event>::empty());
            reveal_with_fuel(held, 2);
        }
        if inodes_apart(self.state()) {
            assert forall|one: InodeId, other: InodeId|
                match (
                    #[trigger] inside.state().inode_position(one),
                    #[trigger] inside.state().inode_position(other),
                ) {
                    (Some((home, at)), Some((table, there))) => one != other && home == table ==> at
                        + SB_GOOD_INODE_SIZE <= there || there + SB_GOOD_INODE_SIZE <= at,
                    _ => true,
                } by {
                assert(self.state().inode_position(one) == inside.state().inode_position(one));
                assert(self.state().inode_position(other) == inside.state().inode_position(other));
            }
        }
    }

    /// An exchange keeps the names of a directory beyond those that its subdirectories have for
    /// it: a directory has as many names more as it has subdirectories more. Left out are the names
    /// that a directory has for itself and for its parent, and numbers of names that are full or
    /// empty.
    pub proof fn lemma_exchange_keeps_own_links(
        &self,
        after: &Self,
        parent: InodeId,
        name: Seq<char>,
        new_parent: InodeId,
        new_name: Seq<char>,
        names: Names,
        kinds: Set<InodeId>,
        disk: Disk,
        dir: InodeId,
    )
        requires
            self.inv(),
            self.exchange_made(after, parent, name, new_parent, new_name, Ok(())),
            self.speaks_by(after, names),
            self.kinds_told(after, kinds),
            self.honest(after, disk),
            self.nothing_waits(),
            inodes_apart(self.state()),
            !dotted(name),
            !dotted(new_name),
            subdirs(names, kinds, dir).finite(),
            0 < links_on(disk, self.state(), dir) < u16::MAX,
        ensures
            own_links(
                self.left_on(after, disk),
                self.state(),
                self.names_at(after, names),
                kinds,
                dir,
            ) == own_links(disk, self.state(), names, kinds, dir),
    {
        self.lemma_exchange_recounts(
            after,
            parent,
            name,
            new_parent,
            new_name,
            names,
            kinds,
            disk,
        );
        self.lemma_exchanged_names_stand(
            after,
            parent,
            name,
            new_parent,
            new_name,
            names,
            kinds,
        );
        let source = names[(parent, name)];
        let target = names[(new_parent, new_name)];
        let crossed = parent != new_parent;
        if source != target {
            let one = names.insert((parent, name), target);
            let both = one.insert((new_parent, new_name), source);
            let gone = turned(both, source, new_parent, crossed && kinds.contains(source));
            lemma_subdirs_with(names, kinds, parent, name, target, dir);
            lemma_subdirs_with(one, kinds, new_parent, new_name, source, dir);
            lemma_subdirs_of_turned(
                both,
                kinds,
                source,
                new_parent,
                crossed && kinds.contains(source),
                dir,
            );
            lemma_subdirs_of_turned(
                gone,
                kinds,
                target,
                parent,
                crossed && kinds.contains(target),
                dir,
            );
        }
        assert(links_on(self.left_on(after, disk), self.state(), dir) == exchanged_links(
            links_on(disk, self.state(), dir),
            dir,
            parent,
            new_parent,
            source,
            target,
            kinds,
        ));
    }

    /// The same exchange made twice restores what the names stand for, and how many names each
    /// inode has. Directories of the two name their parents to begin with.
    pub proof fn lemma_exchange_undoes_exchange(
        &self,
        once: &Self,
        twice: &Self,
        parent: InodeId,
        name: Seq<char>,
        new_parent: InodeId,
        new_name: Seq<char>,
        names: Names,
        kinds: Set<InodeId>,
        disk: Disk,
    )
        requires
            self.inv(),
            self.exchange_made(once, parent, name, new_parent, new_name, Ok(())),
            once.exchange_made(twice, parent, name, new_parent, new_name, Ok(())),
            self.speaks_by(twice, names),
            self.kinds_told(twice, kinds),
            self.honest(twice, disk),
            self.nothing_waits(),
            inodes_apart(self.state()),
            !dotted(name),
            !dotted(new_name),
            names_its_parent(names, kinds, names[(parent, name)], parent),
            names_its_parent(names, kinds, names[(new_parent, new_name)], new_parent),
        ensures
            self.names_at(twice, names) == names,
            forall|id: InodeId| #[trigger]
                links_on(self.left_on(twice, disk), self.state(), id) == links_on(
                    disk,
                    self.state(),
                    id,
                ),
    {
        self.lemma_exchange_keeps_state(once, parent, name, new_parent, new_name);
        once.lemma_exchange_keeps_state(twice, parent, name, new_parent, new_name);
        self.lemma_joins(once, twice, names);
        self.lemma_device_joins(once, twice, disk);
        self.lemma_kinds_so_far(once, twice, kinds);
        self.lemma_kinds_go_on(once, twice, kinds);
        let there = self.names_at(once, names);
        let middle = self.left_on(once, disk);
        self.lemma_exchange_recounts(once, parent, name, new_parent, new_name, names, kinds, disk);
        self.lemma_exchanged_names_stand(once, parent, name, new_parent, new_name, names, kinds);
        once.lemma_exchange_recounts(
            twice,
            parent,
            name,
            new_parent,
            new_name,
            there,
            kinds,
            middle,
        );
        once.lemma_exchanged_names_stand(twice, parent, name, new_parent, new_name, there, kinds);
        let back = once.names_at(twice, there);
        lemma_exchanged_back(names, there, back, kinds, parent, name, new_parent, new_name);
        let source = names[(parent, name)];
        let target = names[(new_parent, new_name)];
        assert forall|id: InodeId| #[trigger]
            links_on(self.left_on(twice, disk), self.state(), id) == links_on(
                disk,
                self.state(),
                id,
            ) by {
            assert(links_on(middle, self.state(), id) == exchanged_links(
                links_on(disk, self.state(), id),
                id,
                parent,
                new_parent,
                source,
                target,
                kinds,
            ));
            assert(links_on(once.left_on(twice, middle), once.state(), id) == exchanged_links(
                links_on(middle, self.state(), id),
                id,
                parent,
                new_parent,
                there[(parent, name)],
                there[(new_parent, new_name)],
                kinds,
            ));
        }
    }

    /// The record goes on with an exchange, and the state stays.
    proof fn lemma_exchange_keeps_state(
        &self,
        after: &Self,
        parent: InodeId,
        name: Seq<char>,
        new_parent: InodeId,
        new_name: Seq<char>,
    )
        requires
            self.inv(),
            self.exchange_made(after, parent, name, new_parent, new_name, Ok(())),
            self.nothing_waits(),
        ensures
            extends(self.log(), after.log()),
            after.state() == self.state(),
    {
        let work = |inside: Self, left: Self, outcome: Result<()>|
            inside.names_exchanged(&left, parent, name, new_parent, new_name, outcome);
        let stages = self.lemma_direct_work(after, work, Ok(()));
        let (inside, left) = stages->0;
        self.lemma_entered_at_rest(&inside);
        inside.lemma_exchange_recounts_inside(
            &left,
            parent,
            name,
            new_parent,
            new_name,
            Map::empty(),
            Set::empty(),
            Map::empty(),
        );
        self.lemma_work_between(&inside, &left, after, Map::empty());
    }
}

/// Exchanging two names twice leaves them as they were.
proof fn lemma_exchanged_back(
    names: Names,
    there: Names,
    back: Names,
    kinds: Set<InodeId>,
    parent: InodeId,
    name: Seq<char>,
    new_parent: InodeId,
    new_name: Seq<char>,
)
    requires
        names.contains_key((parent, name)),
        names.contains_key((new_parent, new_name)),
        is_exchanged(names, there, kinds, parent, name, new_parent, new_name),
        is_exchanged(there, back, kinds, parent, name, new_parent, new_name),
        !dotted(name),
        !dotted(new_name),
        names_its_parent(names, kinds, names[(parent, name)], parent),
        names_its_parent(names, kinds, names[(new_parent, new_name)], new_parent),
    ensures
        back == names,
        names[(parent, name)] != names[(new_parent, new_name)] ==> {
            &&& there[(parent, name)] == names[(new_parent, new_name)]
            &&& there[(new_parent, new_name)] == names[(parent, name)]
        },
{
    assert(back =~= names);
}

/// Whether an inode, where it is a directory, names its parent.
pub open spec fn names_its_parent(
    names: Names,
    kinds: Set<InodeId>,
    child: InodeId,
    parent: InodeId,
) -> bool {
    kinds.contains(child) ==> names.contains_key((child, ".."@)) && names[(child, ".."@)] == parent
}

} // verus!
