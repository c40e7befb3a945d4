use vstd::prelude::*;
use std::collections::HashMap;
use crate::memory_set::{MemorySet, range_covered};
use vstd::string::StringSliceAdditionalSpecFns;

verus! {

broadcast use vstd::std_specs::hash::group_hash_axioms;

/// Error of a system call.
#[derive(Clone, Copy, PartialEq, Eq, Structural, Debug)]
pub enum SysError {
    /// Invalid argument: a bad pointer, descriptor or directory offset.
    Inval,
    /// The file exists and the open asked for it not to.
    Exists,
}

/// Result of a system call: a non-negative value, or an error.
pub type SysResult = Result<isize, SysError>;

/// How an open file may be used.
#[derive(Clone, Copy, PartialEq, Eq, Structural, Debug)]
pub struct OpenOptions {
    pub read: bool,
    pub write: bool,
    pub append: bool,
}

/// An open file: the node it refers to, where the next access starts, and
/// how it may be used.
#[derive(Clone, Copy, PartialEq, Eq, Structural, Debug)]
pub struct FileHandle {
    pub inode: usize,
    pub offset: u64,
    pub options: OpenOptions,
}

/// Flags of `open`.
#[derive(Clone, Copy, PartialEq, Eq, Structural, Debug)]
pub struct OpenFlags {
    pub bits: usize,
}

/// Read only.
pub const O_RDONLY: usize = 0;
/// Write only.
pub const O_WRONLY: usize = 1;
/// Read and write.
pub const O_RDWR: usize = 2;
/// Create the file if it does not exist.
pub const O_CREATE: usize = 0x40;
/// Fail if `O_CREATE` is given and the file exists.
pub const O_EXCLUSIVE: usize = 0x80;
/// Truncate the file on open.
pub const O_TRUNCATE: usize = 0x200;
/// Append on each write.
pub const O_APPEND: usize = 0x400;
/// Every flag that `open` knows.
pub const O_ALL: usize = 0x6c3;

/// The access mode held in the two low bits of open flags.
pub open spec fn access_mode(bits: usize) -> usize {
    bits & 3
}

impl OpenFlags {
    /// The known flags among `bits`; the others are dropped.
    pub fn from_bits_truncate(bits: usize) -> (r: OpenFlags)
        ensures
            r.bits == bits & O_ALL,
    {
        OpenFlags { bits: bits & O_ALL }
    }

    /// The raw flag bits.
    pub fn bits(&self) -> (r: usize)
        ensures
            r == self.bits,
    {
        self.bits
    }

    /// Whether every bit of `flag` is set.
    pub fn contains(&self, flag: usize) -> (r: bool)
        ensures
            r == (self.bits & flag == flag),
    {
        self.bits & flag == flag
    }

    /// The access mode allows reading.
    pub fn readable(&self) -> (r: bool)
        ensures
            r == (access_mode(self.bits) == O_RDONLY || access_mode(self.bits) == O_RDWR),
    {
        let b = self.bits & 3;
        b == O_RDONLY || b == O_RDWR
    }

    /// The access mode allows writing.
    pub fn writable(&self) -> (r: bool)
        ensures
            r == (access_mode(self.bits) == O_WRONLY || access_mode(self.bits) == O_RDWR),
    {
        let b = self.bits & 3;
        b == O_WRONLY || b == O_RDWR
    }

    /// The ways a file opened with these flags may be used.
    pub fn to_options(&self) -> (r: OpenOptions)
        ensures
            r.read == (access_mode(self.bits) == O_RDONLY || access_mode(self.bits) == O_RDWR),
            r.write == (access_mode(self.bits) == O_WRONLY || access_mode(self.bits) == O_RDWR),
            r.append == (self.bits & O_APPEND == O_APPEND),
    {
        OpenOptions { read: self.readable(), write: self.writable(), append: self.contains(O_APPEND) }
    }
}

/// The open files of a process, by descriptor.
pub struct FileTable {
    files: HashMap<usize, FileHandle>,
}

impl View for FileTable {
    type V = Map<usize, FileHandle>;

    closed spec fn view(&self) -> Map<usize, FileHandle> {
        self.files@
    }
}

/// Lowest descriptor from 3 up that `files` does not hold.
pub open spec fn is_lowest_free_fd(files: Map<usize, FileHandle>, fd: int) -> bool {
    &&& 3 <= fd <= usize::MAX
    &&& !files.contains_key(fd as usize)
    &&& forall|k: usize| 3 <= k < fd ==> files.contains_key(k)
}

impl FileTable {
    /// A table with no open file.
    pub fn new() -> (r: FileTable)
        ensures
            r@ == Map::<usize, FileHandle>::empty(),
    {
        FileTable { files: HashMap::new() }
    }

    /// Whether descriptor `fd` is open.
    pub fn contains(&self, fd: usize) -> (r: bool)
        ensures
            r == self@.contains_key(fd),
    {
        self.files.contains_key(&fd)
    }

    /// The file open under `fd`.
    pub fn get_file(&self, fd: usize) -> (r: Result<FileHandle, SysError>)
        ensures
            self@.contains_key(fd) ==> r == Ok::<FileHandle, SysError>(self@[fd]),
            !self@.contains_key(fd) ==> r == Err::<FileHandle, SysError>(SysError::Inval),
    {
        match self.files.get(&fd) {
            Some(h) => Ok(*h),
            None => Err(SysError::Inval),
        }
    }

    /// Opens `file` under the lowest descriptor from 3 up that is free, and
    /// gives that descriptor.
    pub fn insert_lowest(&mut self, file: FileHandle) -> (r: Option<usize>)
        ensures
            match r {
                Some(fd) => is_lowest_free_fd(old(self)@, fd as int) && final(self)@ == old(self)@.insert(fd, file),
                None => final(self)@ == old(self)@ && forall|k: usize| 3 <= k ==> old(self)@.contains_key(k),
            },
    {
        let mut fd: usize = 3;
        loop
            invariant
                3 <= fd,
                self@ == old(self)@,
                forall|k: usize| 3 <= k < fd ==> self@.contains_key(k),
            decreases usize::MAX - fd,
        {
            if !self.files.contains_key(&fd) {
                self.files.insert(fd, file);
                return Some(fd);
            }
            if fd == usize::MAX {
                return None;
            }
            fd = fd + 1;
        }
    }
}

/// Closes descriptor `fd`: `Ok(0)` if it was open, `Inval` otherwise.
pub fn sys_close(files: &mut FileTable, fd: usize) -> (r: SysResult)
    ensures
        final(files)@ == old(files)@.remove(fd),
        old(files)@.contains_key(fd) ==> r == Ok::<isize, SysError>(0),
        !old(files)@.contains_key(fd) ==> r == Err::<isize, SysError>(SysError::Inval),
{
    match files.files.remove(&fd) {
        Some(_) => Ok(0),
        None => Err(SysError::Inval),
    }
}

/// Opens the file of `fd1` under `fd2` too. Fails with `Inval`, changing
/// nothing, when `fd2` is already open or `fd1` is not.
pub fn sys_dup2(files: &mut FileTable, fd1: usize, fd2: usize) -> (r: SysResult)
    ensures
        old(files)@.contains_key(fd2) || !old(files)@.contains_key(fd1) ==> r == Err::<isize, SysError>(
            SysError::Inval,
        ) && final(files)@ == old(files)@,
        !old(files)@.contains_key(fd2) && old(files)@.contains_key(fd1) ==> r == Ok::<isize, SysError>(0)
            && final(files)@ == old(files)@.insert(fd2, old(files)@[fd1]),
{
    if files.files.contains_key(&fd2) {
        return Err(SysError::Inval);
    }
    let file = match files.get_file(fd1) {
        Ok(f) => f,
        Err(e) => {
            return Err(e);
        },
    };
    files.files.insert(fd2, file);
    Ok(0)
}

/// Checks the arguments of a transfer between file `fd` and the user buffer
/// `[base, base + len)`: the buffer must lie in the address space, writable
/// when the kernel fills it (`to_user`), and `fd` must be open. Gives the
/// file, or `Inval`.
pub fn check_transfer(
    set: &MemorySet,
    files: &FileTable,
    fd: usize,
    base: usize,
    len: usize,
    to_user: bool,
) -> (r: Result<FileHandle, SysError>)
    requires
        set.wf(),
    ensures
        ({
            let ok = base + len <= usize::MAX && range_covered(set.areas(), base as int, base + len, to_user);
            &&& ok && files@.contains_key(fd) ==> r == Ok::<FileHandle, SysError>(files@[fd])
            &&& !(ok && files@.contains_key(fd)) ==> r == Err::<FileHandle, SysError>(SysError::Inval)
        }),
{
    let valid = if to_user {
        set.check_mut_array(base, len)
    } else {
        set.check_array(base, len)
    };
    if !valid {
        return Err(SysError::Inval);
    }
    files.get_file(fd)
}

/// `i` is the index of the last `/` of `path`.
pub open spec fn is_last_slash(path: Seq<u8>, i: int) -> bool {
    &&& 0 <= i < path.len()
    &&& path[i] == 47u8
    &&& forall|j: int| i < j < path.len() ==> path[j] != 47u8
}

/// Splits `path` at its last `/` into the directory and the file name; a
/// path without `/` names a file of the current directory, `.`.
pub fn split_path(path: &Vec<u8>) -> (r: (Vec<u8>, Vec<u8>))
    ensures
        (forall|j: int| 0 <= j < path@.len() ==> path@[j] != 47u8) ==> r.0@ == seq![46u8] && r.1@
            == path@,
        forall|i: int|
            #[trigger] is_last_slash(path@, i) ==> r.0@ == path@.subrange(0, i) && r.1@ == path@.subrange(
                i + 1,
                path@.len() as int,
            ),
{
    let mut k: usize = path.len();
    while k > 0
        invariant
            k <= path@.len(),
            forall|j: int| k <= j < path@.len() ==> path@[j] != 47u8,
        decreases k,
    {
        if path[k - 1] == 47u8 {
            let i = k - 1;
            let mut dir: Vec<u8> = Vec::new();
            let mut j: usize = 0;
            while j < i
                invariant
                    i < path@.len(),
                    j <= i,
                    dir@ == path@.subrange(0, j as int),
                decreases i - j,
            {
                dir.push(path[j]);
                j = j + 1;
                assert(dir@ =~= path@.subrange(0, j as int));
            }
            let mut name: Vec<u8> = Vec::new();
            let mut j: usize = i + 1;
            while j < path.len()
                invariant
                    i < path@.len(),
                    i + 1 <= j <= path@.len(),
                    name@ == path@.subrange(i + 1, j as int),
                decreases path@.len() - j,
            {
                name.push(path[j]);
                j = j + 1;
                assert(name@ =~= path@.subrange(i + 1, j as int));
            }
            proof {
                assert(is_last_slash(path@, i as int));
                assert forall|x: int| #[trigger] is_last_slash(path@, x) implies x == i by {
                    if x < i {
                        assert(path@[i as int] == 47u8);
                    }
                }
            }
            return (dir, name);
        }
        k = k - 1;
    }
    let mut name: Vec<u8> = Vec::new();
    let mut j: usize = 0;
    while j < path.len()
        invariant
            j <= path@.len(),
            name@ == path@.subrange(0, j as int),
        decreases path@.len() - j,
    {
        name.push(path[j]);
        j = j + 1;
        assert(name@ =~= path@.subrange(0, j as int));
    }
    assert(name@ =~= path@);
    let mut dir: Vec<u8> = Vec::new();
    dir.push(46u8);
    assert(dir@ =~= seq![46u8]);
    (dir, name)
}

/// A node that `open` finds by name outside the file system.
#[derive(Clone, Copy, PartialEq, Eq, Structural, Debug)]
pub enum SpecialFile {
    /// Standard input, named `stdin:`.
    Stdin,
    /// Standard output, named `stdout:`.
    Stdout,
}

/// The bytes of `stdin:`.
pub open spec fn stdin_path() -> Seq<u8> {
    seq![115u8, 116u8, 100u8, 105u8, 110u8, 58u8]
}

/// The bytes of `stdout:`.
pub open spec fn stdout_path() -> Seq<u8> {
    seq![115u8, 116u8, 100u8, 111u8, 117u8, 116u8, 58u8]
}

/// The special node that `path` names, if any.
pub fn special_file(path: &Vec<u8>) -> (r: Option<SpecialFile>)
    ensures
        path@ == stdin_path() ==> r == Some(SpecialFile::Stdin),
        path@ == stdout_path() ==> r == Some(SpecialFile::Stdout),
        path@ != stdin_path() && path@ != stdout_path() ==> r is None,
{
    if path.len() == 6 && path[0] == 115u8 && path[1] == 116u8 && path[2] == 100u8 && path[3] == 105u8
        && path[4] == 110u8 && path[5] == 58u8 {
        assert(path@ =~= stdin_path());
        return Some(SpecialFile::Stdin);
    }
    if path.len() == 7 && path[0] == 115u8 && path[1] == 116u8 && path[2] == 100u8 && path[3] == 111u8
        && path[4] == 117u8 && path[5] == 116u8 && path[6] == 58u8 {
        assert(path@ =~= stdout_path());
        return Some(SpecialFile::Stdout);
    }
    proof {
        if path@ == stdin_path() {
            assert(path@[5] == 58u8);
        }
        if path@ == stdout_path() {
            assert(path@[6] == 58u8);
        }
    }
    None
}

/// What `open` does once the path has been looked up.
#[derive(Clone, Copy, PartialEq, Eq, Structural, Debug)]
pub enum OpenAction {
    /// Open the file that was found.
    UseExisting,
    /// Create the file in its directory.
    Create,
}

/// Decides an `open` with `flags` whose path was found or not: with
/// `O_CREATE`, a missing file is created and a found one is opened unless
/// `O_EXCLUSIVE` asks for `Exists`; without it the file is opened as found.
/// `None` says that the lookup's own error stands.
pub fn open_action(flags: OpenFlags, found: bool) -> (r: Option<Result<OpenAction, SysError>>)
    ensures
        found && flags.bits & O_CREATE == O_CREATE && flags.bits & O_EXCLUSIVE == O_EXCLUSIVE ==> r
            == Some(Err::<OpenAction, SysError>(SysError::Exists)),
        found && !(flags.bits & O_CREATE == O_CREATE && flags.bits & O_EXCLUSIVE == O_EXCLUSIVE)
            ==> r == Some(Ok::<OpenAction, SysError>(OpenAction::UseExisting)),
        !found && flags.bits & O_CREATE == O_CREATE ==> r == Some(Ok::<OpenAction, SysError>(OpenAction::Create)),
        !found && flags.bits & O_CREATE != O_CREATE ==> r is None,
{
    if flags.contains(O_CREATE) {
        if found {
            if flags.contains(O_EXCLUSIVE) {
                Some(Err(SysError::Exists))
            } else {
                Some(Ok(OpenAction::UseExisting))
            }
        } else {
            Some(Ok(OpenAction::Create))
        }
    } else if found {
        Some(Ok(OpenAction::UseExisting))
    } else {
        None
    }
}

/// Kind of a file-system node.
#[derive(Clone, Copy, PartialEq, Eq, Structural, Debug)]
pub enum FileType {
    File,
    Dir,
    SymLink,
    CharDevice,
    BlockDevice,
    NamedPipe,
    Socket,
}

/// A directory entry as the user passes it to `getdirentry`: the byte
/// offset of the entry in the directory, 256 per entry, and its name with a
/// terminating zero.
pub struct DirEntry {
    pub offset: u32,
    pub name: [u8; 256],
}

impl DirEntry {
    /// An entry at `offset` with an empty name.
    pub fn new(offset: u32) -> (r: DirEntry)
        ensures
            r.offset == offset,
            r.name@ == Seq::new(256, |i: int| 0u8),
    {
        let r = DirEntry { offset, name: [0u8; 256] };
        proof {
            assert(r.name@ =~= Seq::new(256, |i: int| 0u8));
        }
        r
    }

    /// The offset names a whole entry.
    pub fn check(&self) -> (r: bool)
        ensures
            r == (self.offset % 256 == 0),
    {
        self.offset % 256 == 0
    }

    /// Index of the entry that the offset names.
    pub fn entry_id(&self) -> (r: usize)
        ensures
            r == self.offset / 256,
    {
        (self.offset / 256) as usize
    }

    /// Stores `name`, ends it with a zero, and moves on to the next entry.
    pub fn set_name(&mut self, name: &str)
        requires
            name.spec_bytes().len() < 256,
            old(self).offset + 256 <= u32::MAX,
        ensures
            ({
                let n = name.spec_bytes().len() as int;
                &&& final(self).name@.subrange(0, n) == name.spec_bytes()
                &&& final(self).name@[n] == 0
                &&& final(self).name@.subrange(n + 1, 256) == old(self).name@.subrange(n + 1, 256)
                &&& final(self).offset == old(self).offset + 256
            }),
    {
        let bytes = name.as_bytes();
        let n = bytes.len();
        let mut i: usize = 0;
        while i < n
            invariant
                n == name.spec_bytes().len(),
                bytes@ == name.spec_bytes(),
                n < 256,
                i <= n,
                self.offset == old(self).offset,
                forall|k: int| 0 <= k < i ==> #[trigger] self.name@[k] == bytes@[k],
                forall|k: int| i <= k < 256 ==> #[trigger] self.name@[k] == old(self).name@[k],
            decreases n - i,
        {
            self.name[i] = bytes[i];
            i = i + 1;
        }
        self.name[n] = 0;
        self.offset = self.offset + 256;
        proof {
            assert(self.name@.subrange(0, n as int) =~= name.spec_bytes());
            assert(self.name@.subrange(n + 1, 256) =~= old(self).name@.subrange(n + 1, 256));
        }
    }
}

/// Checks a `getdirentry` on a node of kind `type_` holding `size` entries:
/// the entry's offset must name a whole entry of a directory, within its
/// size. Gives the index of the entry to read, or `Inval`.
pub fn dir_entry_index(dentry: &DirEntry, type_: FileType, size: usize) -> (r: Result<usize, SysError>)
    ensures
        dentry.offset % 256 == 0 && type_ == FileType::Dir && size > dentry.offset / 256 ==> r == Ok::<
            usize,
            SysError,
        >((dentry.offset / 256) as usize),
        !(dentry.offset % 256 == 0 && type_ == FileType::Dir && size > dentry.offset / 256) ==> r
            == Err::<usize, SysError>(SysError::Inval),
{
    if !dentry.check() {
        return Err(SysError::Inval);
    }
    let id = dentry.entry_id();
    if type_ != FileType::Dir || size <= id {
        return Err(SysError::Inval);
    }
    Ok(id)
}

/// File kind and permission bits, as `stat` reports them.
#[derive(Clone, Copy, PartialEq, Eq, Structural, Debug)]
pub struct StatMode {
    pub bits: u32,
}

/// No kind.
pub const S_NULL: u32 = 0;
/// Mask of the kind bits.
pub const S_TYPE_MASK: u32 = 0o170000;
/// Named pipe.
pub const S_FIFO: u32 = 0o010000;
/// Character device.
pub const S_CHAR: u32 = 0o020000;
/// Directory.
pub const S_DIR: u32 = 0o040000;
/// Block device.
pub const S_BLOCK: u32 = 0o060000;
/// Regular file.
pub const S_FILE: u32 = 0o100000;
/// Symbolic link.
pub const S_LINK: u32 = 0o120000;
/// Socket.
pub const S_SOCKET: u32 = 0o140000;
/// Every mode bit that `stat` knows: the kind, set-user-ID, set-group-ID
/// and the nine permission bits.
pub const S_ALL: u32 = 0o176777;

/// The kind bits of `type_`.
pub open spec fn type_bits(type_: FileType) -> u32 {
    match type_ {
        FileType::File => S_FILE,
        FileType::Dir => S_DIR,
        FileType::SymLink => S_LINK,
        FileType::CharDevice => S_CHAR,
        FileType::BlockDevice => S_BLOCK,
        FileType::Socket => S_SOCKET,
        FileType::NamedPipe => S_FIFO,
    }
}

impl StatMode {
    /// The mode of a node of kind `type_` with permission bits `mode`; the
    /// bits of `mode` that `stat` does not know are dropped.
    pub fn from_type_mode(type_: FileType, mode: u16) -> (r: StatMode)
        ensures
            r.bits == type_bits(type_) | (mode as u32 & S_ALL),
    {
        let t: u32 = match type_ {
            FileType::File => S_FILE,
            FileType::Dir => S_DIR,
            FileType::SymLink => S_LINK,
            FileType::CharDevice => S_CHAR,
            FileType::BlockDevice => S_BLOCK,
            FileType::Socket => S_SOCKET,
            FileType::NamedPipe => S_FIFO,
        };
        StatMode { bits: t | (mode as u32 & S_ALL) }
    }
}

/// A point in time: seconds and nanoseconds.
#[derive(Clone, Copy, PartialEq, Eq, Structural, Debug)]
pub struct Timespec {
    pub sec: i64,
    pub nsec: i32,
}

/// What the file system tells of a node.
#[derive(Clone, Copy, PartialEq, Eq, Structural, Debug)]
pub struct Metadata {
    pub dev: usize,
    pub inode: usize,
    pub size: usize,
    pub blk_size: usize,
    pub blocks: usize,
    pub atime: Timespec,
    pub mtime: Timespec,
    pub ctime: Timespec,
    pub type_: FileType,
    pub mode: u16,
    pub nlinks: usize,
    pub uid: usize,
    pub gid: usize,
}

/// What `fstat` writes to the user.
#[derive(Clone, Copy, PartialEq, Eq, Structural, Debug)]
pub struct Stat {
    pub dev: u64,
    pub ino: u64,
    pub nlink: u64,
    pub mode: StatMode,
    pub uid: u32,
    pub gid: u32,
    pub pad0: u32,
    pub rdev: u64,
    pub size: u64,
    pub blksize: u64,
    pub blocks: u64,
    pub atime: Timespec,
    pub mtime: Timespec,
    pub ctime: Timespec,
}

/// The `stat` record of a node with metadata `info`.
pub open spec fn stat_of(info: Metadata) -> Stat {
    Stat {
        dev: info.dev as u64,
        ino: info.inode as u64,
        nlink: info.nlinks as u64,
        mode: StatMode { bits: type_bits(info.type_) | (info.mode as u32 & S_ALL) },
        uid: info.uid as u32,
        gid: info.gid as u32,
        pad0: 0,
        rdev: 0,
        size: info.size as u64,
        blksize: info.blk_size as u64,
        blocks: info.blocks as u64,
        atime: info.atime,
        mtime: info.mtime,
        ctime: info.ctime,
    }
}

impl From<Metadata> for Stat {
    fn from(info: Metadata) -> (r: Stat)
        ensures
            r == stat_of(info),
    {
        Stat {
            dev: info.dev as u64,
            ino: info.inode as u64,
            nlink: info.nlinks as u64,
            mode: StatMode::from_type_mode(info.type_, info.mode),
            uid: info.uid as u32,
            gid: info.gid as u32,
            pad0: 0,
            rdev: 0,
            size: info.size as u64,
            blksize: info.blk_size as u64,
            blocks: info.blocks as u64,
            atime: info.atime,
            mtime: info.mtime,
            ctime: info.ctime,
        }
    }
}

impl vstd::std_specs::convert::FromSpecImpl<Metadata> for Stat {
    open spec fn obeys_from_spec() -> bool {
        true
    }

    open spec fn from_spec(info: Metadata) -> Stat {
        stat_of(info)
    }
}

} // verus!
