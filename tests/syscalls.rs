use ucore::fs::{
    check_transfer, dir_entry_index, open_action, special_file, split_path, sys_close, sys_dup2,
    DirEntry, FileHandle, SpecialFile,
    FileTable, FileType, Metadata, OpenAction, OpenFlags, OpenOptions, Stat, StatMode, SysError,
    Timespec, O_APPEND, O_CREATE, O_EXCLUSIVE, O_RDONLY, O_RDWR, O_WRONLY,
};
use ucore::memory_set::{MemoryArea, MemoryAttr, MemorySet};
use ucore::phys::PhysMemory;

fn handle(inode: usize) -> FileHandle {
    FileHandle { inode, offset: 0, options: OpenOptions { read: true, write: false, append: false } }
}

#[test]
fn close_open_and_missing_descriptor() {
    let mut files = FileTable::new();
    assert_eq!(files.insert_lowest(handle(10)), Some(3));
    assert_eq!(sys_close(&mut files, 3), Ok(0));
    assert!(!files.contains(3));
    assert_eq!(sys_close(&mut files, 3), Err(SysError::Inval));
}

#[test]
fn dup2_copies_and_refuses_taken_target() {
    let mut files = FileTable::new();
    files.insert_lowest(handle(10)).unwrap();
    files.insert_lowest(handle(11)).unwrap();
    assert_eq!(sys_dup2(&mut files, 3, 9), Ok(0));
    assert_eq!(files.get_file(9), Ok(handle(10)));
    assert_eq!(sys_dup2(&mut files, 3, 4), Err(SysError::Inval));
    assert_eq!(files.get_file(4), Ok(handle(11)));
    assert_eq!(sys_dup2(&mut files, 7, 8), Err(SysError::Inval));
    assert!(!files.contains(8));
}

#[test]
fn lowest_free_descriptor_from_three() {
    let mut files = FileTable::new();
    assert_eq!(files.insert_lowest(handle(1)), Some(3));
    assert_eq!(files.insert_lowest(handle(2)), Some(4));
    assert_eq!(files.insert_lowest(handle(3)), Some(5));
    sys_close(&mut files, 4).unwrap();
    assert_eq!(files.insert_lowest(handle(4)), Some(4));
    assert_eq!(files.get_file(4), Ok(handle(4)));
}

#[test]
fn open_flags_access_modes() {
    let r = OpenFlags::from_bits_truncate(O_RDONLY);
    assert!(r.readable() && !r.writable());
    let w = OpenFlags::from_bits_truncate(O_WRONLY | O_APPEND);
    assert!(!w.readable() && w.writable());
    assert_eq!(w.to_options(), OpenOptions { read: false, write: true, append: true });
    let rw = OpenFlags::from_bits_truncate(O_RDWR | 0x1000);
    assert_eq!(rw.bits(), O_RDWR);
    assert_eq!(rw.to_options(), OpenOptions { read: true, write: true, append: false });
    let bad = OpenFlags::from_bits_truncate(3);
    assert!(!bad.readable() && !bad.writable());
    assert!(OpenFlags::from_bits_truncate(O_CREATE | O_EXCLUSIVE).contains(O_CREATE));
}

#[test]
fn open_decisions() {
    let create = OpenFlags::from_bits_truncate(O_CREATE);
    let excl = OpenFlags::from_bits_truncate(O_CREATE | O_EXCLUSIVE);
    let plain = OpenFlags::from_bits_truncate(O_RDONLY);
    assert_eq!(open_action(create, true), Some(Ok(OpenAction::UseExisting)));
    assert_eq!(open_action(create, false), Some(Ok(OpenAction::Create)));
    assert_eq!(open_action(excl, true), Some(Err(SysError::Exists)));
    assert_eq!(open_action(excl, false), Some(Ok(OpenAction::Create)));
    assert_eq!(open_action(plain, true), Some(Ok(OpenAction::UseExisting)));
    assert_eq!(open_action(plain, false), None);
}

#[test]
fn dir_entry_name_and_offset() {
    let mut d = DirEntry::new(512);
    assert!(d.check());
    assert_eq!(d.entry_id(), 2);
    d.set_name("hello");
    assert_eq!(&d.name[..6], b"hello\0");
    assert_eq!(d.offset, 768);
    assert_eq!(d.entry_id(), 3);
    let odd = DirEntry::new(100);
    assert!(!odd.check());
}

#[test]
fn dir_entry_index_checks() {
    let d = DirEntry::new(256);
    assert_eq!(dir_entry_index(&d, FileType::Dir, 2), Ok(1));
    assert_eq!(dir_entry_index(&d, FileType::Dir, 1), Err(SysError::Inval));
    assert_eq!(dir_entry_index(&d, FileType::File, 5), Err(SysError::Inval));
    assert_eq!(dir_entry_index(&DirEntry::new(257), FileType::Dir, 5), Err(SysError::Inval));
}

#[test]
fn stat_mode_bits() {
    assert_eq!(StatMode::from_type_mode(FileType::File, 0o644).bits, 0o100644);
    assert_eq!(StatMode::from_type_mode(FileType::Dir, 0o755).bits, 0o040755);
    assert_eq!(StatMode::from_type_mode(FileType::SymLink, 0o1777).bits, 0o120777);
    assert_eq!(StatMode::from_type_mode(FileType::NamedPipe, 0).bits, 0o010000);
    assert_eq!(StatMode::from_type_mode(FileType::Socket, 0o4000).bits, 0o144000);
}

#[test]
fn stat_from_metadata() {
    let t = Timespec { sec: 5, nsec: 6 };
    let info = Metadata {
        dev: 1,
        inode: 2,
        size: 300,
        blk_size: 512,
        blocks: 1,
        atime: t,
        mtime: t,
        ctime: t,
        type_: FileType::CharDevice,
        mode: 0o600,
        nlinks: 1,
        uid: 7,
        gid: 8,
    };
    let s = Stat::from(info);
    assert_eq!(s.ino, 2);
    assert_eq!(s.size, 300);
    assert_eq!(s.mode.bits, 0o020600);
    assert_eq!(s.uid, 7);
    assert_eq!(s.gid, 8);
    assert_eq!(s.rdev, 0);
    assert_eq!(s.atime, t);
}

#[test]
fn transfer_arguments_checked() {
    let mut mem = PhysMemory::new(4);
    let mut set = MemorySet::new();
    let ro = MemoryAttr { user: true, readonly: true, execute: false, cow: false, lazy: false };
    set.push(MemoryArea { start_addr: 0x1000, end_addr: 0x2000, attr: ro }, &mut mem).unwrap();
    let mut files = FileTable::new();
    files.insert_lowest(handle(5)).unwrap();
    assert_eq!(check_transfer(&set, &files, 3, 0x1000, 0x100, false), Ok(handle(5)));
    assert_eq!(check_transfer(&set, &files, 3, 0x1000, 0x100, true), Err(SysError::Inval));
    assert_eq!(check_transfer(&set, &files, 4, 0x1000, 0x100, false), Err(SysError::Inval));
    assert_eq!(check_transfer(&set, &files, 3, 0x1f00, 0x200, false), Err(SysError::Inval));
}

#[test]
fn split_path_at_last_slash() {
    assert_eq!(split_path(&b"/usr/bin/sh".to_vec()), (b"/usr/bin".to_vec(), b"sh".to_vec()));
    assert_eq!(split_path(&b"file".to_vec()), (b".".to_vec(), b"file".to_vec()));
    assert_eq!(split_path(&b"/a".to_vec()), (Vec::new(), b"a".to_vec()));
    assert_eq!(split_path(&b"dir/".to_vec()), (b"dir".to_vec(), Vec::new()));
    assert_eq!(split_path(&Vec::new()), (b".".to_vec(), Vec::new()));
}

#[test]
fn special_paths() {
    assert_eq!(special_file(&b"stdin:".to_vec()), Some(SpecialFile::Stdin));
    assert_eq!(special_file(&b"stdout:".to_vec()), Some(SpecialFile::Stdout));
    assert_eq!(special_file(&b"stdin".to_vec()), None);
    assert_eq!(special_file(&b"/stdout:".to_vec()), None);
    assert_eq!(special_file(&Vec::new()), None);
}
