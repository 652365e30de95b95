//! Structural properties of the interpreter on concrete images:
//! round-trip accounting, self and parent entries, resolution
//! idempotence, insert visibility and budget, the file size bound, and
//! each error variant.

use ext2::Ext2Error;
use ext2::fs::Ext2;

fn le16(img: &mut Vec<u8>, off: usize, x: u16) {
    img[off] = (x % 0x100) as u8;
    img[off + 1] = (x / 0x100) as u8;
}

fn le32(img: &mut Vec<u8>, off: usize, x: u32) {
    img[off] = (x % 0x100) as u8;
    img[off + 1] = ((x / 0x100) % 0x100) as u8;
    img[off + 2] = ((x / 0x1_0000) % 0x100) as u8;
    img[off + 3] = (x / 0x100_0000) as u8;
}

fn inode(img: &mut Vec<u8>, n: usize, type_perm: u16, size: u32, block0: u32) {
    let base = 5120 + (n - 1) * 128;
    le16(img, base, type_perm);
    le32(img, base + 4, size);
    le32(img, base + 40, block0);
}

fn entry(img: &mut Vec<u8>, off: usize, ino: u32, esz: u16, nl: u8, ty: u8, name: &[u8]) {
    le32(img, off, ino);
    le16(img, off + 4, esz);
    img[off + 6] = nl;
    img[off + 7] = ty;
    img[off + 8..off + 8 + name.len()].copy_from_slice(name);
}

fn build_image() -> Vec<u8> {
    let mut img = vec![0u8; 64 * 1024];
    le32(&mut img, 1024, 16);
    le32(&mut img, 1028, 64);
    le32(&mut img, 1048, 0);
    le32(&mut img, 1056, 64);
    le32(&mut img, 1064, 16);
    le16(&mut img, 1080, 0xEF53);
    le16(&mut img, 1112, 128);
    for i in 0..16 {
        img[1128 + i] = i as u8;
    }
    le32(&mut img, 2048, 3);
    le32(&mut img, 2052, 4);
    le32(&mut img, 2056, 5);
    inode(&mut img, 2, 0x41ED, 1024, 10);
    inode(&mut img, 11, 0x41ED, 1024, 11);
    inode(&mut img, 12, 0x81A4, 6, 12);
    inode(&mut img, 13, 0x81A4, 0, 0);
    inode(&mut img, 14, 0x81A4, 0, 0);
    inode(&mut img, 15, 0x41ED, 1024, 13);
    entry(&mut img, 10240, 2, 12, 1, 2, b".");
    entry(&mut img, 10252, 2, 12, 2, 2, b"..");
    entry(&mut img, 10264, 13, 12, 1, 1, b"a");
    entry(&mut img, 10276, 11, 12, 1, 2, b"b");
    entry(&mut img, 10288, 14, 976, 1, 1, b"d");
    entry(&mut img, 11264, 11, 12, 1, 2, b".");
    entry(&mut img, 11276, 2, 12, 2, 2, b"..");
    entry(&mut img, 11288, 12, 1000, 1, 1, b"c");
    img[12288..12294].copy_from_slice(b"hello\n");
    entry(&mut img, 13312, 15, 12, 1, 2, b".");
    entry(&mut img, 13324, 2, 12, 2, 2, b"..");
    entry(&mut img, 13336, 2, 736, 1, 1, b"w");
    entry(&mut img, 14072, 2, 264, 255, 1, b"z");
    img
}

fn load() -> Ext2 {
    Ext2::new(build_image()).expect("image loads")
}

#[test]
fn indirect_directory_listing() {
    // a two-block directory whose second data block hangs off the
    // singly indirect pointer
    let mut img = build_image();
    inode(&mut img, 16, 0x41ED, 2048, 14);
    le32(&mut img, 5120 + 15 * 128 + 88, 15); // indirect pointer of inode 16
    entry(&mut img, 14336, 16, 12, 1, 2, b".");
    entry(&mut img, 14348, 2, 1012, 2, 2, b"..");
    le32(&mut img, 15360, 16); // the indirect block names block 16
    entry(&mut img, 16384, 2, 1024, 1, 1, b"m");
    let fs = Ext2::new(img).unwrap();
    let entries = fs.read_dir_inode(16).unwrap();
    assert_eq!(entries.len(), 3);
    assert_eq!(entries[2].name, b"m".to_vec());
    let total: u64 = entries.iter().map(|e| e.entry_size as u64).sum();
    assert_eq!(total, 2048);
}

#[test]
fn pointer_outside_image_is_refused() {
    let mut img = build_image();
    le32(&mut img, 5120 + 128 + 40, 100); // root's first direct pointer, past the image
    let fs = Ext2::new(img).unwrap();
    assert_eq!(fs.read_dir_inode(2).unwrap_err(), Ext2Error::Truncated);
}

#[test]
fn round_trip_enumeration() {
    let fs = load();
    for dir in [2usize, 11, 15] {
        let entries = fs.read_dir_inode(dir).unwrap();
        let total: u64 = entries.iter().map(|e| e.entry_size as u64).sum();
        assert_eq!(total, 1024);
        assert_eq!(total % 1024, 0);
        for e in &entries {
            assert!(e.name_length as u16 <= e.entry_size - 8);
        }
    }
}

#[test]
fn self_and_parent_entries() {
    let fs = load();
    let b = fs.read_dir_inode(11).unwrap();
    assert_eq!(b[0].name, b".".to_vec());
    assert_eq!(b[0].inode, 11);
    assert_eq!(b[1].name, b"..".to_vec());
    assert_eq!(b[1].inode, 2);
    let root = fs.read_dir_inode(2).unwrap();
    assert_eq!(root[1].inode, 2);
}

#[test]
fn free_records_are_skipped() {
    // mark the root's "a" record free: enumeration drops it and the
    // path walker no longer matches its leftover name
    let mut img = build_image();
    le32(&mut img, 10264, 0);
    let fs = Ext2::new(img).unwrap();
    let entries = fs.read_dir_inode(2).unwrap();
    let names: Vec<&[u8]> = entries.iter().map(|e| e.name.as_slice()).collect();
    assert_eq!(names, vec![b".".as_slice(), b"..", b"b", b"d"]);
    let dirs = fs.read_dir_inode(2).unwrap();
    let d = fs.follow_path(&b"a".to_vec(), dirs).unwrap_err();
    assert_eq!(d.kind, Ext2Error::NoSuchEntry);
}

#[test]
fn absolute_path_anchors_at_root() {
    // a leading '/' resolves from the root whatever the starting listing
    let fs = load();
    let dirs_b = fs.read_dir_inode(11).unwrap();
    assert_eq!(fs.follow_path(&b"/b/c".to_vec(), dirs_b).unwrap(), 12);
    let dirs_b = fs.read_dir_inode(11).unwrap();
    assert_eq!(fs.follow_path(&b"/a".to_vec(), dirs_b).unwrap(), 13);
    // and the cd surface follows it
    let dirs_b = fs.read_dir_inode(11).unwrap();
    assert_eq!(fs.cd(dirs_b, Some(&b"/b".to_vec())).unwrap(), 11);
}

#[test]
fn resolve_idempotent() {
    let fs = load();
    let dirs = fs.read_dir_inode(2).unwrap();
    let first = fs.follow_path(&b"b/c".to_vec(), dirs).unwrap();
    let dirs = fs.read_dir_inode(2).unwrap();
    let second = fs.follow_path(&b"b/c".to_vec(), dirs).unwrap();
    assert_eq!(first, 12);
    assert_eq!(first, second);
}

#[test]
fn resolve_reconstruction() {
    // a path rebuilt from enumerated names resolves to the same inode
    let fs = load();
    let root = fs.read_dir_inode(2).unwrap();
    let sub = root.iter().find(|e| e.name == b"b".to_vec()).unwrap();
    let inside = fs.read_dir_inode(sub.inode as usize).unwrap();
    let leaf = inside.iter().find(|e| e.name == b"c".to_vec()).unwrap();
    let mut path = sub.name.clone();
    path.push(b'/');
    path.extend_from_slice(&leaf.name);
    let dirs = fs.read_dir_inode(2).unwrap();
    assert_eq!(fs.follow_path(&path, dirs).unwrap(), leaf.inode as usize);
}

#[test]
fn insert_visibility() {
    let mut fs = load();
    let before = fs.read_dir_inode(2).unwrap();
    fs.insert_dir_entry(2, &b"x".to_vec(), 13).unwrap();
    let after = fs.read_dir_inode(2).unwrap();
    assert_eq!(after.len(), before.len() + 1);
    let last = after.last().unwrap();
    assert_eq!(last.name, b"x".to_vec());
    assert_eq!(last.inode, 13);
    for (old, new) in before.iter().zip(after.iter()) {
        assert_eq!(old.inode, new.inode);
        assert_eq!(old.name, new.name);
    }
}

#[test]
fn insert_budget_rejected() {
    // directory 15's last record, cut to its minimum, leaves no slack
    let mut fs = load();
    let before = fs.read_dir_inode(15).unwrap();
    let e = fs.insert_dir_entry(15, &b"q".to_vec(), 2).unwrap_err();
    assert_eq!(e, Ext2Error::NoSpace);
    let after = fs.read_dir_inode(15).unwrap();
    assert_eq!(before.len(), after.len());
    for (old, new) in before.iter().zip(after.iter()) {
        assert_eq!(old.inode, new.inode);
        assert_eq!(old.entry_size, new.entry_size);
    }
}

#[test]
fn file_size_bound() {
    let fs = load();
    let data = fs.read_file_inode(12).unwrap();
    let ino = fs.get_inode(12).unwrap();
    assert_eq!(data.len() as u64, ((ino.size_high as u64) << 32) | ino.size_low as u64);
    assert_eq!(data.len(), 6);
}

#[test]
fn write_back_partial_last_block() {
    // a payload that is not a whole block ends with a partial write
    let mut fs = load();
    let payload: Vec<u8> = (0u8..20).collect();
    fs.write_dir_inode(2, &payload).unwrap();
    let mut out: Vec<u8> = Vec::new();
    fs.read_dir_entry_block(&mut out, 10, 20, 0).unwrap();
    assert_eq!(out, payload);
}

#[test]
fn write_back_beyond_direct_blocks_is_refused() {
    // the root holds one data block; two blocks of payload have nowhere
    // to go, and nothing is written
    let mut fs = load();
    let before = fs.contiguous_data_from_dir_inode(2).unwrap();
    let e = fs.write_dir_inode(2, &vec![7u8; 2048]).unwrap_err();
    assert_eq!(e, Ext2Error::NoSpace);
    assert_eq!(fs.contiguous_data_from_dir_inode(2).unwrap(), before);
}

#[test]
fn read_dir_entry_block_caps_at_size() {
    let fs = load();
    let mut out: Vec<u8> = Vec::new();
    let c = fs.read_dir_entry_block(&mut out, 12, 6, 0).unwrap();
    assert_eq!(c, 6);
    assert_eq!(out, b"hello\n".to_vec());
}

#[test]
fn payload_is_trimmed() {
    let fs = load();
    let data = fs.contiguous_data_from_dir_inode(2).unwrap();
    // the root payload ends with the name "d" at offset 56, then NULs
    assert_eq!(data.len(), 57);
    assert_eq!(*data.last().unwrap(), b'd');
}

#[test]
fn uuid_reflects_fs_id() {
    let fs = load();
    let expected = uuid::Uuid::from_bytes([0, 1, 2, 3, 4, 5, 6, 7, 8, 9, 10, 11, 12, 13, 14, 15]);
    assert_eq!(fs.uuid, expected);
}

#[test]
fn bad_magic_is_refused() {
    let mut img = build_image();
    le16(&mut img, 1080, 0x1234);
    assert_eq!(Ext2::new(img).unwrap_err(), Ext2Error::NotExt2);
}

#[test]
fn short_image_is_refused() {
    assert_eq!(Ext2::new(vec![0u8; 100]).unwrap_err(), Ext2Error::Truncated);
}

#[test]
fn oversized_block_size_is_refused() {
    // past 32768 a record's sixteen-bit stored length cannot reach a
    // block boundary
    let mut img = build_image();
    le32(&mut img, 1048, 6);
    assert_eq!(Ext2::new(img).unwrap_err(), Ext2Error::UnsupportedGeometry);
}

#[test]
fn four_kilobyte_blocks() {
    // the same tree shape on 4096-byte blocks: descriptor table in
    // block 1, data indexed from block 2
    let mut img = vec![0u8; 64 * 4096];
    le32(&mut img, 1024, 16);
    le32(&mut img, 1028, 64);
    le32(&mut img, 1048, 2); // log_block_size: 4096
    le32(&mut img, 1056, 64);
    le32(&mut img, 1064, 16);
    le16(&mut img, 1080, 0xEF53);
    le16(&mut img, 1112, 128);
    le32(&mut img, 4096 + 8, 5); // group 0: inode table at block 5
    // inode table at byte 5 * 4096
    let it = 5 * 4096;
    le16(&mut img, it + 128, 0x41ED); // root, inode 2
    le32(&mut img, it + 128 + 4, 4096);
    le32(&mut img, it + 128 + 40, 10);
    le16(&mut img, it + 11 * 128, 0x81A4); // file, inode 12
    le32(&mut img, it + 11 * 128 + 4, 6);
    le32(&mut img, it + 11 * 128 + 40, 12);
    // root directory in block 10
    let rd = 10 * 4096;
    le32(&mut img, rd, 2);
    le16(&mut img, rd + 4, 12);
    img[rd + 6] = 1;
    img[rd + 7] = 2;
    img[rd + 8] = b'.';
    le32(&mut img, rd + 12, 2);
    le16(&mut img, rd + 16, 12);
    img[rd + 18] = 2;
    img[rd + 19] = 2;
    img[rd + 20] = b'.';
    img[rd + 21] = b'.';
    le32(&mut img, rd + 24, 12);
    le16(&mut img, rd + 28, 4072);
    img[rd + 30] = 1;
    img[rd + 31] = 1;
    img[rd + 32] = b'c';
    // file contents in block 12
    img[12 * 4096..12 * 4096 + 6].copy_from_slice(b"hello
");
    let fs = Ext2::new(img).unwrap();
    let dirs = fs.read_dir_inode(2).unwrap();
    let out = fs.ls(dirs, None).unwrap();
    assert_eq!(out, b".	..	c
".to_vec());
    let dirs = fs.read_dir_inode(2).unwrap();
    assert_eq!(fs.cat(dirs, &b"c".to_vec()).unwrap(), b"hello
".to_vec());
}

#[test]
fn missing_inode_numbers() {
    let fs = load();
    assert_eq!(fs.get_inode(0).unwrap_err(), Ext2Error::NoSuchInode);
    assert_eq!(fs.get_inode(999).unwrap_err(), Ext2Error::NoSuchInode);
}

#[test]
fn listing_a_file_is_refused() {
    let fs = load();
    assert_eq!(fs.read_dir_inode(12).unwrap_err(), Ext2Error::NotADirectory);
}

#[test]
fn reading_a_directory_as_file_is_refused() {
    let fs = load();
    assert_eq!(fs.read_file_inode(2).unwrap_err(), Ext2Error::NotAFile);
}

#[test]
fn missing_entry_names_the_component() {
    let fs = load();
    let dirs = fs.read_dir_inode(2).unwrap();
    let d = fs.follow_path(&b"nope".to_vec(), dirs).unwrap_err();
    assert_eq!(d.kind, Ext2Error::NoSuchEntry);
    assert_eq!(d.subject, b"nope".to_vec());
}

#[test]
fn file_in_the_middle_of_a_path() {
    let fs = load();
    let dirs = fs.read_dir_inode(2).unwrap();
    let d = fs.follow_path(&b"b/c/x".to_vec(), dirs).unwrap_err();
    assert_eq!(d.kind, Ext2Error::NotADirectoryInPath);
    assert_eq!(d.subject, b"c".to_vec());
}

#[test]
fn corrupt_record_length_is_refused() {
    let mut img = build_image();
    le16(&mut img, 10244, 0); // entry_size of the root's first record
    let fs = Ext2::new(img).unwrap();
    assert_eq!(fs.read_dir_inode(2).unwrap_err(), Ext2Error::MalformedDirectory);
}

#[test]
fn bad_names_are_refused() {
    let mut fs = load();
    let long = vec![b'y'; 255];
    assert_eq!(fs.insert_dir_entry(2, &long, 13).unwrap_err(), Ext2Error::BadName);
    assert_eq!(
        fs.insert_dir_entry(2, &b"a\0b".to_vec(), 13).unwrap_err(),
        Ext2Error::BadName
    );
}
