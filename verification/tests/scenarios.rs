//! End-to-end command scenarios against a small hand-built image whose
//! root holds `a`, `b/` (containing the file `c` with "hello\n") and
//! `d`.

use ext2::fs::Ext2;
use ext2::shell::diagnostic_bytes;

fn le16(img: &mut Vec<u8>, off: usize, x: u16) {
    img[off] = (x % 0x100) as u8;
    img[off + 1] = (x / 0x100) as u8;
}

fn le32(img: &mut Vec<u8>, off: usize, x: u32) {
    img[off] = (x % 0x100) as u8;
    img[off + 1] = ((x / 0x100) % 0x100) as u8;
    img[off + 2] = ((x / 0x1_0000) % 0x100) as u8;
    img[off + 3] = (x / 0x100_0000) as u8;
}

fn inode(img: &mut Vec<u8>, n: usize, type_perm: u16, size: u32, block0: u32) {
    let base = 5120 + (n - 1) * 128;
    le16(img, base, type_perm);
    le32(img, base + 4, size);
    le32(img, base + 40, block0);
}

fn entry(img: &mut Vec<u8>, off: usize, ino: u32, esz: u16, nl: u8, ty: u8, name: &[u8]) {
    le32(img, off, ino);
    le16(img, off + 4, esz);
    img[off + 6] = nl;
    img[off + 7] = ty;
    img[off + 8..off + 8 + name.len()].copy_from_slice(name);
}

/// One block group, 1024-byte blocks: boot block, superblock, group
/// descriptors, bitmaps, inode table in blocks 5..6, data from 10 on.
fn build_image() -> Vec<u8> {
    let mut img = vec![0u8; 64 * 1024];
    // superblock
    le32(&mut img, 1024, 16); // inodes_count
    le32(&mut img, 1028, 64); // blocks_count
    le32(&mut img, 1048, 0); // log_block_size
    le32(&mut img, 1056, 64); // blocks_per_group
    le32(&mut img, 1064, 16); // inodes_per_group
    le16(&mut img, 1080, 0xEF53); // magic
    le16(&mut img, 1112, 128); // inode_size
    for i in 0..16 {
        img[1128 + i] = i as u8; // fs_id
    }
    // group descriptor 0
    le32(&mut img, 2048, 3); // block bitmap
    le32(&mut img, 2052, 4); // inode bitmap
    le32(&mut img, 2056, 5); // inode table
    // inodes
    inode(&mut img, 2, 0x41ED, 1024, 10); // root directory
    inode(&mut img, 11, 0x41ED, 1024, 11); // directory b
    inode(&mut img, 12, 0x81A4, 6, 12); // file c, "hello\n"
    inode(&mut img, 13, 0x81A4, 0, 0); // file a, empty
    inode(&mut img, 14, 0x81A4, 0, 0); // file d, empty
    inode(&mut img, 15, 0x41ED, 1024, 13); // directory f, packed full
    // root directory: ".", "..", "a", "b", "d"
    entry(&mut img, 10240, 2, 12, 1, 2, b".");
    entry(&mut img, 10252, 2, 12, 2, 2, b"..");
    entry(&mut img, 10264, 13, 12, 1, 1, b"a");
    entry(&mut img, 10276, 11, 12, 1, 2, b"b");
    entry(&mut img, 10288, 14, 976, 1, 1, b"d");
    // directory b: ".", "..", "c"
    entry(&mut img, 11264, 11, 12, 1, 2, b".");
    entry(&mut img, 11276, 2, 12, 2, 2, b"..");
    entry(&mut img, 11288, 12, 1000, 1, 1, b"c");
    // file c
    img[12288..12294].copy_from_slice(b"hello\n");
    // directory f: last record leaves no slack for any insert
    entry(&mut img, 13312, 15, 12, 1, 2, b".");
    entry(&mut img, 13324, 2, 12, 2, 2, b"..");
    entry(&mut img, 13336, 2, 736, 1, 1, b"w");
    entry(&mut img, 14072, 2, 264, 255, 1, b"z");
    img
}

fn load() -> Ext2 {
    Ext2::new(build_image()).expect("image loads")
}

#[test]
fn s1_ls_at_root() {
    let fs = load();
    let dirs = fs.read_dir_inode(2).unwrap();
    let out = fs.ls(dirs, None).unwrap();
    assert_eq!(out, b".\t..\ta\tb\td\n".to_vec());
}

#[test]
fn s2_cd_b_then_ls() {
    let fs = load();
    let dirs = fs.read_dir_inode(2).unwrap();
    let cwd = fs.cd(dirs, Some(&b"b".to_vec())).unwrap();
    assert_eq!(cwd, 11);
    let dirs_b = fs.read_dir_inode(cwd).unwrap();
    let out = fs.ls(dirs_b, None).unwrap();
    assert_eq!(out, b".\t..\tc\n".to_vec());
}

#[test]
fn s3_cat_b_c() {
    let fs = load();
    let dirs = fs.read_dir_inode(2).unwrap();
    let out = fs.cat(dirs, &b"b/c".to_vec()).unwrap();
    assert_eq!(out, b"hello\n".to_vec());
}

#[test]
fn s4_cat_directory_is_refused() {
    let fs = load();
    let dirs = fs.read_dir_inode(2).unwrap();
    let d = fs.cat(dirs, &b"b".to_vec()).unwrap_err();
    assert_eq!(diagnostic_bytes(&d), b"not a file: b".to_vec());
}

#[test]
fn s5_cd_into_file_is_refused() {
    let fs = load();
    let dirs = fs.read_dir_inode(2).unwrap();
    let d = fs.cd(dirs, Some(&b"b/c".to_vec())).unwrap_err();
    assert_eq!(diagnostic_bytes(&d), b"not a directory: c".to_vec());
    // the caller keeps its working directory on an error; nothing was
    // mutated, so a fresh listing still shows the old tree
    let dirs = fs.read_dir_inode(2).unwrap();
    let out = fs.ls(dirs, None).unwrap();
    assert_eq!(out, b".\t..\ta\tb\td\n".to_vec());
}

#[test]
fn s6_mkdir_then_ls() {
    let mut fs = load();
    fs.mkdir(2, &b"e".to_vec()).unwrap();
    let dirs = fs.read_dir_inode(2).unwrap();
    let out = fs.ls(dirs, None).unwrap();
    assert!(out.ends_with(b"\te\n"));
    // the new name resolves and lists
    let dirs = fs.read_dir_inode(2).unwrap();
    let listed = fs.ls(dirs, Some(&b"e".to_vec()));
    assert!(listed.is_ok());
}
