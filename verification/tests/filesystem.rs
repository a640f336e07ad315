use noctfs::device::MemDevice;
use noctfs::entity::Entity;
use noctfs::fs::NoctFS;
use noctfs::{NoctFSError, END_OF_CHAIN};

fn entry_of(data: &[u8], nr: usize) -> u64 {
    let off = 512 + 8 * nr;
    let mut v: u64 = 0;
    let mut i = 0;
    while i < 8 {
        v |= (data[off + i] as u64) << (8 * i);
        i += 1;
    }
    v
}

#[test]
fn format_writes_superblock_and_chainmap() {
    let dev = MemDevice::zeroed(1 << 20);
    let fs = NoctFS::format(dev, Some(512), Some(512)).unwrap();
    let dev = fs.into_device();
    let data = dev.data();
    assert_eq!(&data[3..11], b"NoctFS__");
    assert_eq!(&data[11..13], &[0x00, 0x02]);
    assert_eq!(&data[13..17], &[0x00, 0x02, 0x00, 0x00]);
    assert_eq!(&data[17..21], &[0x00, 0x08, 0x00, 0x00]);
    assert_eq!(&data[21..29], &[1, 0, 0, 0, 0, 0, 0, 0]);
    assert_eq!(entry_of(data, 0), END_OF_CHAIN);
    assert_eq!(entry_of(data, 1), END_OF_CHAIN);
    for j in 2..2048 {
        assert_eq!(entry_of(data, j), 0);
    }
}

#[test]
fn format_then_mount_succeeds_zeroed_device_fails() {
    let dev = MemDevice::zeroed(1 << 20);
    let fs = NoctFS::format(dev, None, None).unwrap();
    let dev = fs.into_device();
    let fs2 = NoctFS::new(dev);
    assert!(fs2.is_ok());

    let zeroed = MemDevice::zeroed(1 << 20);
    match NoctFS::new(zeroed) {
        Err(NoctFSError::SignatureNotValid) => {}
        _ => panic!("a zeroed device must be refused"),
    }
}

#[test]
fn root_lists_dot_and_dotdot() {
    let dev = MemDevice::zeroed(1 << 20);
    let fs = NoctFS::format(dev, Some(512), Some(512)).unwrap();
    let ents = fs.list_directory(1).unwrap();
    assert_eq!(ents.len(), 2);
    assert_eq!(ents[0].name, b".".to_vec());
    assert_eq!(ents[0].start_block, 1);
    assert!(ents[0].is_directory());
    assert_eq!(ents[1].name, b"..".to_vec());
    assert_eq!(ents[1].start_block, 1);
    assert!(ents[1].is_directory());
}

#[test]
fn allocate_blocks_first_fit_and_free() {
    let dev = MemDevice::zeroed(1 << 20);
    let mut fs = NoctFS::format(dev, Some(512), Some(512)).unwrap();
    let head = fs.allocate_blocks(3).unwrap();
    assert_eq!(head, 2);
    {
        let data = fs.device_ref().data();
        assert_eq!(entry_of(data, 0), END_OF_CHAIN);
        assert_eq!(entry_of(data, 1), END_OF_CHAIN);
        assert_eq!(entry_of(data, 2), 3);
        assert_eq!(entry_of(data, 3), 4);
        assert_eq!(entry_of(data, 4), END_OF_CHAIN);
        for j in 5..2048 {
            assert_eq!(entry_of(data, j), 0);
        }
    }
    assert_eq!(fs.get_chain(2), vec![2, 3, 4]);
    fs.free_blocks(2);
    let data = fs.device_ref().data();
    for j in 2..2048 {
        assert_eq!(entry_of(data, j), 0);
    }
    assert_eq!(entry_of(data, 0), END_OF_CHAIN);
    assert_eq!(entry_of(data, 1), END_OF_CHAIN);
}

#[test]
fn resize_chain_matches_request() {
    let dev = MemDevice::zeroed(1 << 20);
    let mut fs = NoctFS::format(dev, Some(512), Some(512)).unwrap();
    let head = fs.allocate_blocks(2).unwrap();
    fs.set_chain_size(head, 5).unwrap();
    assert_eq!(fs.get_chain(head).len(), 5);
    fs.set_chain_size(head, 2).unwrap();
    assert_eq!(fs.get_chain(head).len(), 2);
}

#[test]
fn write_then_read_file_contents() {
    let dev = MemDevice::zeroed(1 << 20);
    let mut fs = NoctFS::format(dev, Some(512), Some(512)).unwrap();
    let ent = fs.create_file(1, b"Test.txt".to_vec()).unwrap();
    assert_eq!(ent.start_block, 2);
    assert_eq!(ent.size, 0);
    fs.write_contents_by_entity(1, &ent, b"Ninja-go!\n", 10).unwrap();
    let mut buf = vec![0u8; 32];
    fs.read_contents_by_entity(&ent, &mut buf, 10);
    assert_eq!(&buf[..10], b"Ninja-go!\n");
    // The record now carries the new size.
    let updated = fs.get_entity_by_parent_and_block(1, ent.start_block).unwrap();
    assert_eq!(updated.size, 20);
}

#[test]
fn large_write_spans_many_blocks() {
    let dev = MemDevice::zeroed(8 << 20);
    let mut fs = NoctFS::format(dev, Some(512), Some(4096)).unwrap();
    let ent = fs.create_file(1, b"big.bin".to_vec()).unwrap();
    let n = (1 << 20) + 37;
    let mut payload = vec![0u8; n];
    for (i, b) in payload.iter_mut().enumerate() {
        *b = (i % 251) as u8;
    }
    fs.write_contents_by_entity(1, &ent, &payload, 0).unwrap();
    assert_eq!(fs.get_chain(ent.start_block).len(), 257);
    let mut back = vec![0u8; n];
    fs.read_contents_by_entity(&ent, &mut back, 0);
    assert_eq!(back, payload);
    // A later chunk lands where it should without disturbing the rest.
    let ent = fs.get_entity_by_parent_and_block(1, ent.start_block).unwrap();
    fs.write_contents_by_entity(1, &ent, &[7u8; 100], 1_048_500).unwrap();
    let mut tail = vec![0u8; 100];
    fs.read_contents_by_entity(&ent, &mut tail, 1_048_500);
    assert_eq!(tail, vec![7u8; 100]);
    let mut head = vec![0u8; 1000];
    fs.read_contents_by_entity(&ent, &mut head, 0);
    assert_eq!(&head[..], &payload[..1000]);
}

#[test]
fn create_many_directories_grows_parent() {
    let dev = MemDevice::zeroed(4 << 20);
    let mut fs = NoctFS::format(dev, Some(512), Some(512)).unwrap();
    let mut blocks = Vec::new();
    for i in 0..50 {
        let name = format!("subdir_{:05}", i).into_bytes();
        assert_eq!(name.len(), 12);
        let ent = fs.create_directory(1, name).unwrap();
        assert!(ent.is_directory());
        blocks.push(ent.start_block);
    }
    let ents = fs.list_directory(1).unwrap();
    assert_eq!(ents.len(), 52);
    for (i, b) in blocks.iter().enumerate() {
        assert_eq!(ents[i + 2].start_block, *b);
        assert_eq!(ents[i + 2].name, format!("subdir_{:05}", i).into_bytes());
        let inside = fs.list_directory(*b).unwrap();
        assert_eq!(inside.len(), 2);
        assert_eq!(inside[0].name, b".".to_vec());
        assert_eq!(inside[0].start_block, *b);
        assert_eq!(inside[1].name, b"..".to_vec());
        assert_eq!(inside[1].start_block, 1);
    }
    assert!(fs.get_chain(1).len() > 1);
}

#[test]
fn delete_file_restores_chainmap_and_listing() {
    let dev = MemDevice::zeroed(1 << 20);
    let mut fs = NoctFS::format(dev, Some(512), Some(512)).unwrap();
    let keep = fs.create_file(1, b"keep.txt".to_vec()).unwrap();
    let before: Vec<u8> = fs.device_ref().data().clone();
    let victim = fs.create_file(1, b"gone.txt".to_vec()).unwrap();
    fs.delete_file(1, &victim).unwrap();
    // The chainmap is back to what it was before the file existed.
    let after = fs.device_ref().data();
    for j in 0..2048 {
        assert_eq!(entry_of(after, j), entry_of(&before, j), "entry {}", j);
    }
    let ents = fs.list_directory(1).unwrap();
    assert_eq!(ents.len(), 3);
    assert_eq!(ents[2].start_block, keep.start_block);
    // Deleting a directory is refused.
    let sub = fs.create_directory(1, b"sub".to_vec()).unwrap();
    match fs.delete_file(1, &sub) {
        Err(NoctFSError::InvalidArgument) => {}
        _ => panic!("directories must not be deletable"),
    }
    // A record that is not there is reported.
    match fs.delete_file(1, &victim) {
        Err(NoctFSError::NotFound) => {}
        _ => panic!("a missing record must be reported"),
    }
}

#[test]
fn entity_codec_round_trip() {
    let e = Entity::file(b"hello.txt".to_vec(), 1234, 7);
    let raw = e.as_raw();
    assert_eq!(raw.len(), 9 + 32);
    assert_eq!(e.header_size(), 9 + 28);
    assert_eq!(e.fact_size(), 9 + 32);
    let back = Entity::from_raw(raw.as_slice()).unwrap();
    assert_eq!(back.name, b"hello.txt".to_vec());
    assert_eq!(back.size, 1234);
    assert_eq!(back.start_block, 7);
    assert!(back.is_file());
    // Unknown flag bits are rejected.
    let mut bad = raw.clone();
    bad[9 + 24] = 0xff;
    match Entity::from_raw(bad.as_slice()) {
        Err(NoctFSError::Corrupt) => {}
        _ => panic!("unknown flags must be refused"),
    }
}

#[test]
fn corrupt_directory_stream_is_reported() {
    let dev = MemDevice::zeroed(1 << 20);
    let mut fs = NoctFS::format(dev, Some(512), Some(512)).unwrap();
    // Smash the root stream with an impossible record header.
    fs.write_blocks_data(1, &[9, 0, 0, 0], 0);
    match fs.list_directory(1) {
        Err(NoctFSError::Corrupt) => {}
        _ => panic!("a malformed stream must be reported"),
    }
}

#[test]
fn allocator_reports_exhaustion() {
    let dev = MemDevice::zeroed(1 << 20);
    let mut fs = NoctFS::format(dev, Some(512), Some(512)).unwrap();
    // 2048 entries, two already used: 2046 remain.
    assert!(fs.allocate_blocks(2047).is_none());
    let head = fs.allocate_blocks(2046).unwrap();
    assert_eq!(head, 2);
    assert!(fs.allocate_blocks(1).is_none());
    assert_eq!(fs.find_block(), None);
}

#[test]
fn creation_reports_exhaustion() {
    let dev = MemDevice::zeroed(1 << 20);
    let mut fs = NoctFS::format(dev, Some(512), Some(512)).unwrap();
    // Use up every free block, then ask for one more file.
    fs.allocate_blocks(2046).unwrap();
    match fs.create_file(1, b"late.txt".to_vec()) {
        Err(NoctFSError::OutOfSpace) => {}
        _ => panic!("creation without a free block must be refused"),
    }
    match fs.create_directory(1, b"late".to_vec()) {
        Err(NoctFSError::OutOfSpace) => {}
        _ => panic!("creation without a free block must be refused"),
    }
}

#[test]
fn content_write_reports_missing_record_and_exhaustion() {
    let dev = MemDevice::zeroed(1 << 20);
    let mut fs = NoctFS::format(dev, Some(512), Some(512)).unwrap();
    let ent = fs.create_file(1, b"a.txt".to_vec()).unwrap();
    // A stale record (wrong size field) is not found.
    let mut stale = ent.clone();
    stale.size = 999;
    match fs.write_contents_by_entity(1, &stale, b"x", 0) {
        Err(NoctFSError::NotFound) => {}
        _ => panic!("a stale record must be reported"),
    }
    // A write needing more blocks than remain free is refused.
    let huge = vec![3u8; 1_100_000];
    match fs.write_contents_by_entity(1, &ent, &huge, 0) {
        Err(NoctFSError::OutOfSpace) => {}
        _ => panic!("an oversized write must be refused"),
    }
    // The refused write changed nothing: the file still works.
    fs.write_contents_by_entity(1, &ent, b"ok", 0).unwrap();
    let mut buf = vec![0u8; 2];
    fs.read_contents_by_entity(&ent, &mut buf, 0);
    assert_eq!(&buf, b"ok");
}

#[test]
fn root_entity_is_synthetic_directory() {
    let dev = MemDevice::zeroed(1 << 20);
    let fs = NoctFS::format(dev, None, None).unwrap();
    let root = fs.get_root_entity().unwrap();
    assert_eq!(root.name, b"/".to_vec());
    assert_eq!(root.start_block, 1);
    assert_eq!(root.size, 0);
    assert!(root.is_directory());
    assert_eq!(fs.block_size(), 8192);
    assert_eq!(fs.datazone_offset(), 512 + 8 * 128);
}
