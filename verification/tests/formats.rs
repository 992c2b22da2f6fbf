//! On-disk formats, ranges, and the bookkeeping around them.

use another_ext4::bytes::{get_be32, get_le16, get_le32, put_be16, put_be32, put_le16, put_le32};
use another_ext4::crc32c;
use another_ext4::device::Block;
use another_ext4::error::ErrCode;
use another_ext4::extent::{extent_at, node_depth};
use another_ext4::gate::{MetadataMutationGate, METADATA_GATE_DIRECT_MAX};
use another_ext4::inode::{
    FileType, Inode, InodeMode, InodeRef, SetAttr, MODE_DIRECTORY, MODE_FILE, MODE_SOFTLINK,
    SB_GOOD_INODE_SIZE,
};
use another_ext4::jbd2::{
    block_checksum, checksum_seed, commit_checksum, tag_checksum, BlockType, ChecksumMode,
    Features, Header, Superblock, CRC32C_CHKSUM, FLAG_ESCAPE, FLAG_LAST_TAG, FLAG_SAME_UUID,
    MAGIC,
};
use another_ext4::journal_log::{
    encode_commit, encode_log, required_log_blocks, ring_len, ring_next, ring_positions,
    tags_per_descriptor,
};
use another_ext4::journal_transaction::{DirectTransactionCore, TransactionCoreRef};
use another_ext4::prepared_extent::PreparedExtentCache;
use another_ext4::range::WriteLogicalRange;
use another_ext4::superblock::{BlockGroupDesc, SuperBlock, BASE_OFFSET};
use another_ext4::unlink::namespace_removal_is_final;
use another_ext4::xattr::XattrBlock;
use another_ext4::BLOCK_SIZE;

fn features(checksum: ChecksumMode, has_64bit: bool) -> Features {
    Features {
        checksum,
        has_64bit,
    }
}

fn journal(max_len: u32, checksum: ChecksumMode) -> Superblock {
    Superblock {
        block_size: BLOCK_SIZE as u32,
        max_len,
        first: 1,
        sequence: 1,
        start: 0,
        errno: 0,
        features: features(checksum, true),
        uuid: *b"0123456789abcdef",
        checksum_type: CRC32C_CHKSUM,
    }
}

#[test]
fn checksum_has_its_check_value() {
    assert_eq!(
        crc32c::update(u32::MAX, b"123456789") ^ u32::MAX,
        0xe306_9283
    );
    assert_eq!(crc32c::update(7, b""), 7);
    assert_eq!(
        crc32c::update_masked(u32::MAX, b"12345\x01\x02\x03\x04", 5, 4),
        crc32c::update(u32::MAX, b"12345\0\0\0\0")
    );
}

#[test]
fn numbers_are_stored_in_their_order() {
    let mut bytes = [0; 8];
    put_be32(&mut bytes, 0, 0x0102_0304);
    put_le32(&mut bytes, 4, 0x0102_0304);
    assert_eq!(bytes, [1, 2, 3, 4, 4, 3, 2, 1]);
    assert_eq!(get_be32(&bytes, 0), 0x0102_0304);
    assert_eq!(get_le32(&bytes, 4), 0x0102_0304);
    put_be16(&mut bytes, 0, 0x0506);
    put_le16(&mut bytes, 2, 0x0506);
    assert_eq!(bytes[..4], [5, 6, 6, 5]);
    assert_eq!(get_le16(&bytes, 2), 0x0506);
}

#[test]
fn descriptor_tags_depend_on_the_features() {
    assert_eq!(
        tags_per_descriptor(features(ChecksumMode::V3, true)).unwrap(),
        (4096 - 12 - 16 - 4) / 16
    );
    assert_eq!(
        tags_per_descriptor(features(ChecksumMode::Unchecked, true)).unwrap(),
        (4096 - 12 - 16) / 12
    );
    assert_eq!(
        tags_per_descriptor(features(ChecksumMode::Unchecked, false)).unwrap(),
        (4096 - 12 - 16) / 8
    );
}

#[test]
fn log_counts_images_descriptors_and_commit() {
    let v3 = features(ChecksumMode::V3, true);
    assert_eq!(required_log_blocks(0, v3).unwrap(), 1);
    assert_eq!(required_log_blocks(1, v3).unwrap(), 3);
    assert_eq!(required_log_blocks(254, v3).unwrap(), 256);
    assert_eq!(required_log_blocks(255, v3).unwrap(), 258);
    assert_eq!(
        required_log_blocks(usize::MAX, v3).unwrap_err().code(),
        ErrCode::E2BIG
    );
}

#[test]
fn ring_wraps_behind_its_last_block() {
    let sb = journal(8, ChecksumMode::V3);
    assert_eq!(ring_len(&sb).unwrap(), 7);
    assert_eq!(ring_next(&sb, 6), 7);
    assert_eq!(ring_next(&sb, 7), 1);
    assert_eq!(ring_positions(&sb, 6, 4).unwrap(), [6, 7, 1, 2]);
    let mut broken = sb;
    broken.first = 9;
    assert_eq!(ring_len(&broken).unwrap_err().code(), ErrCode::EIO);
}

#[test]
fn logged_block_is_named_and_escaped() {
    let sb = journal(8, ChecksumMode::V3);
    let mut core = DirectTransactionCore::new(100).unwrap();
    let mut transaction = core.start(2).unwrap();
    let mut escaped = Box::new([3; BLOCK_SIZE]);
    escaped[..4].copy_from_slice(&MAGIC.to_be_bytes());
    transaction.stage(9, escaped.clone()).unwrap();
    transaction.stage(5, Box::new([1; BLOCK_SIZE])).unwrap();
    let log = encode_log(&sb, 77, transaction.staged_blocks()).unwrap();
    assert_eq!(log.len(), 3);

    let descriptor = &log[0];
    assert_eq!(get_be32(&descriptor[..], 0), MAGIC);
    assert_eq!(get_be32(&descriptor[..], 4), 1);
    assert_eq!(get_be32(&descriptor[..], 8), 77);
    assert_eq!(get_be32(&descriptor[..], 12), 5);
    assert_eq!(get_be32(&descriptor[..], 16), 0);
    assert_eq!(descriptor[28..44], *b"0123456789abcdef");
    assert_eq!(get_be32(&descriptor[..], 44), 9);
    assert_eq!(
        get_be32(&descriptor[..], 48),
        FLAG_ESCAPE | FLAG_SAME_UUID | FLAG_LAST_TAG
    );
    let seed = checksum_seed(&sb.uuid);
    assert_eq!(
        get_be32(&descriptor[..], 24),
        tag_checksum(seed, 77, &[1; BLOCK_SIZE])
    );
    assert_eq!(
        get_be32(&descriptor[..], BLOCK_SIZE - 4),
        block_checksum(seed, descriptor)
    );
    assert_eq!(log[1][..], [1; BLOCK_SIZE]);
    assert_eq!(log[2][..4], [0; 4]);
    assert_eq!(log[2][4..], escaped[4..]);
    transaction.abort(TransactionCoreRef::Direct(&mut core));
}

#[test]
fn commit_record_carries_its_checksum() {
    let sb = journal(8, ChecksumMode::V3);
    let block = encode_commit(&sb, 0x0102_0304);
    assert_eq!(get_be32(&block[..], 0), MAGIC);
    assert_eq!(get_be32(&block[..], 4), 2);
    assert_eq!(get_be32(&block[..], 8), 0x0102_0304);
    assert_eq!(
        get_be32(&block[..], 16),
        commit_checksum(checksum_seed(&sb.uuid), &block)
    );
    let plain = encode_commit(&journal(8, ChecksumMode::Unchecked), 1);
    assert_eq!(get_be32(&plain[..], 16), 0);
    let mut header = [0; 12];
    Header {
        block_type: BlockType::SuperblockV2,
        sequence: 9,
    }
    .encode_into(&mut header);
    assert_eq!(
        header,
        [0xc0, 0x3b, 0x39, 0x98, 0, 0, 0, 4, 0, 0, 0, 9]
    );
}

#[test]
fn staging_is_limited_by_its_credits() {
    let mut core = DirectTransactionCore::new(100).unwrap();
    let mut transaction = core.start(1).unwrap();
    transaction.stage(4, Box::new([1; BLOCK_SIZE])).unwrap();
    transaction.stage(4, Box::new([2; BLOCK_SIZE])).unwrap();
    assert_eq!(
        transaction
            .stage(5, Box::new([3; BLOCK_SIZE]))
            .unwrap_err()
            .code(),
        ErrCode::E2BIG
    );
    assert_eq!(transaction.staged_blocks().len(), 1);
    assert_eq!(transaction.staged_blocks().at(0).home(), 4);
    assert_eq!(transaction.staged_blocks().at(0).bytes()[0], 2);
    assert!(!transaction.staged_blocks().contains(5));
    assert_eq!(
        DirectTransactionCore::new(0).err().unwrap().code(),
        ErrCode::EINVAL
    );
}

#[test]
fn byte_ranges_touch_their_blocks() {
    assert!(WriteLogicalRange::checked(5, 0).unwrap().is_none());
    let range = WriteLogicalRange::checked(4095, 2).unwrap().unwrap();
    assert_eq!(
        (range.first_lblock, range.last_lblock, range.block_count),
        (0, 1, 2)
    );
    let last = WriteLogicalRange::checked(u32::MAX as usize * BLOCK_SIZE, BLOCK_SIZE)
        .unwrap()
        .unwrap();
    assert_eq!((last.first_lblock, last.block_count), (u32::MAX, 1));
    assert_eq!(
        WriteLogicalRange::checked((u32::MAX as usize + 1) * BLOCK_SIZE, 1)
            .unwrap_err()
            .code(),
        ErrCode::EFBIG
    );
    assert_eq!(
        WriteLogicalRange::checked(usize::MAX, 2).unwrap_err().code(),
        ErrCode::EFBIG
    );
}

#[test]
fn published_range_is_known_until_the_next_epoch() {
    let mut cache = PreparedExtentCache::new();
    let range = WriteLogicalRange::checked(0, 4 * BLOCK_SIZE).unwrap().unwrap();
    let part = WriteLogicalRange::checked(BLOCK_SIZE, BLOCK_SIZE)
        .unwrap()
        .unwrap();
    let beyond = WriteLogicalRange::checked(0, 5 * BLOCK_SIZE).unwrap().unwrap();
    let probe = cache.probe(3, &range);
    assert!(!probe.hit);
    assert!(cache.publish_if_current(3, &range, probe.token));
    assert!(cache.probe(3, &part).hit);
    assert!(!cache.probe(3, &beyond).hit);
    assert!(!cache.probe(4, &part).hit);
    cache.invalidate();
    assert!(!cache.probe(3, &part).hit);
    assert!(!cache.publish_if_current(3, &range, probe.token));
    let (hits, misses, _, invalidations) = cache.stats();
    assert_eq!((hits, misses, invalidations), (1, 4, 1));
}

#[test]
fn barrier_counts_direct_writers() {
    let mut gate = MetadataMutationGate::new();
    gate.enter_direct().unwrap();
    gate.enter_direct().unwrap();
    assert_eq!(gate.enter_exclusive().unwrap_err().code(), ErrCode::EAGAIN);
    gate.leave_direct();
    gate.leave_direct();
    gate.enter_exclusive().unwrap();
    assert_eq!(gate.enter_direct().unwrap_err().code(), ErrCode::EAGAIN);
    gate.leave_exclusive();
    assert_eq!(gate, MetadataMutationGate::new());
    gate.direct = METADATA_GATE_DIRECT_MAX;
    assert_eq!(gate.enter_direct().unwrap_err().code(), ErrCode::EAGAIN);
}

#[test]
fn inode_fields_are_apart() {
    let mut inode = Inode::zeroed();
    inode.set_mode(InodeMode::from_type_and_perm(
        FileType::RegularFile,
        InodeMode::from_bits_retain(0o7644),
    ));
    inode.set_uid(0xdead_beef);
    inode.set_size(0x0123_4567_89ab_cdef);
    inode.set_block_count(0xffff_1234_5678);
    inode.set_xattr_block(0x8000_0000_0001);
    assert_eq!(inode.mode().bits(), MODE_FILE | 0o7644);
    assert_eq!(inode.perm().bits(), 0o7644);
    assert_eq!(inode.uid(), 0xdead_beef);
    assert_eq!(inode.size(), 0x0123_4567_89ab_cdef);
    assert_eq!(inode.block_count(), 0xffff_1234_5678);
    assert_eq!(inode.fs_block_count(), 0xffff_1234_5678 / 8);
    assert_eq!(inode.xattr_block(), 0x8000_0000_0001);
    assert_eq!((inode.gid(), inode.link_count(), inode.atime()), (0, 0, 0));
    assert!(inode.is_file() && !inode.is_dir() && !inode.is_softlink());
    assert_eq!(
        InodeMode::from_bits_retain(MODE_DIRECTORY).file_type(),
        FileType::Directory
    );
    assert_eq!(
        InodeMode::from_bits_retain(MODE_SOFTLINK).file_type(),
        FileType::SymLink
    );
    assert_eq!(
        InodeMode::from_bits_retain(0).file_type(),
        FileType::Unknown
    );
    inode.set_device(8, 1);
    assert_eq!(inode.device(), (8, 1));
    inode.set_device(0xfff, 0xf_ffff);
    assert_eq!(inode.device(), (0xfff, 0xf_ffff));
    assert_eq!(inode.bytes().len(), SB_GOOD_INODE_SIZE);
}

#[test]
fn attributes_are_applied_field_by_field() {
    let mut inode = InodeRef::new(3, Inode::zeroed());
    let mut attr = SetAttr::new();
    assert!(!attr.is_writeback_metadata_only());
    attr.size = Some(9);
    attr.ctime = Some(4);
    assert!(attr.is_writeback_metadata_only());
    attr.gid = Some(0x1_0001);
    assert!(!attr.is_writeback_metadata_only());
    attr.apply_to(&mut inode.inode);
    assert_eq!(
        (inode.inode.size(), inode.inode.ctime(), inode.inode.gid()),
        (9, 4, 0x1_0001)
    );
    assert_eq!((inode.inode.uid(), inode.inode.mtime()), (0, 0));
}

#[test]
fn extent_entries_are_read_from_a_node() {
    let mut node = [0; 60];
    node[6] = 1;
    assert_eq!(node_depth(&node), 1);
    put_le32(&mut node, 24, 100);
    put_le16(&mut node, 28, 0x8003);
    put_le16(&mut node, 30, 2);
    put_le32(&mut node, 32, 7);
    let extent = extent_at(&node, 1).unwrap();
    assert_eq!(extent.start_lblock, 100);
    assert_eq!(extent.block_count, 3);
    assert_eq!(extent.start_pblock, (2 << 32) | 7);
    assert!(extent_at(&node, 4).is_none());
}

#[test]
fn counts_of_free_blocks_are_kept() {
    let mut data = [0; BLOCK_SIZE];
    put_le16(&mut data, BASE_OFFSET + 56, 0xef53);
    put_le32(&mut data, BASE_OFFSET + 4, 1000);
    let mut superblock = SuperBlock::from_block(&data);
    superblock.set_free_blocks_count(0x1_0000_0002);
    assert_eq!(superblock.free_blocks_count(), 0x1_0000_0002);
    assert_eq!(superblock.block_count(), 1000);
    superblock.set_last_orphan(12);
    assert_eq!(superblock.last_orphan(), 12);
    let mut desc = BlockGroupDesc::from_block(&data, 0);
    desc.set_free_blocks_count(0x1_0003);
    assert_eq!(desc.get_free_blocks_count(), 0x1_0003);
}

#[test]
fn checksummed_inode_and_descriptor_change_their_sums_alone() {
    let mut data = [0; BLOCK_SIZE];
    put_le32(&mut data, BASE_OFFSET + 100, 0x400);
    let superblock = SuperBlock::from_block(&data);
    assert!(superblock.has_checksums());
    let mut inode = Inode::zeroed();
    inode.set_size(77);
    put_le16(&mut inode.raw, 128, 32);
    let plain = inode.raw;
    superblock.seal_inode(&mut inode, 12);
    assert_eq!(inode.size(), 77);
    let seed = superblock.metadata_checksum_seed();
    let mut register = crc32c::update(seed, &12u32.to_le_bytes());
    register = crc32c::update(register, &0u32.to_le_bytes());
    let sum = crc32c::update(register, &plain);
    assert_eq!(get_le16(&inode.raw, 124), sum as u16);
    assert_eq!(get_le16(&inode.raw, 130), (sum >> 16) as u16);
}

#[test]
fn attribute_block_keeps_its_entries() {
    let mut block = XattrBlock::new(Block::new(5, Box::new([0xff; BLOCK_SIZE])));
    block.init();
    assert!(block.list().is_empty());
    assert!(block.insert(b"user.a", b"one"));
    assert!(block.insert(b"user.bc", b""));
    assert_eq!(block.get(b"user.a").unwrap(), b"one");
    assert_eq!(block.get(b"user.bc").unwrap(), b"");
    assert!(block.get(b"user").is_none());
    assert!(!block.insert(b"user.c", &[0; BLOCK_SIZE]));
    assert!(!block.insert(&[b'n'; 256], b""));
    assert_eq!(block.list(), [b"user.a".to_vec(), b"user.bc".to_vec()]);
    assert!(block.remove(b"user.a"));
    assert!(!block.remove(b"user.a"));
    assert_eq!(block.list(), [b"user.bc".to_vec()]);
    block.update_checksum(1, 5);
    assert!(block.verify_checksum(1, 5));
    assert!(!block.verify_checksum(2, 5));
    assert_eq!(block.get(b"user.bc").unwrap(), b"");
}

#[test]
fn last_name_of_a_file_or_directory_is_final() {
    assert!(namespace_removal_is_final(true, 5));
    assert!(namespace_removal_is_final(false, 1));
    assert!(!namespace_removal_is_final(false, 2));
}
