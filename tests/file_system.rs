use db::{FsError, RawFd, WriteBack, FS, PAGE_SIZE, PageID};
use std::collections::HashMap;

/// Backing storage held in memory: files by name, each an inode, and open
/// descriptors that refer to inodes, numbered from 3 as an OS would.
struct MemDisk {
    names: HashMap<String, usize>,
    inodes: Vec<Vec<u8>>,
    open: HashMap<RawFd, usize>,
    raw_writes: usize,
    fail_writes: bool,
}

impl MemDisk {
    fn new() -> MemDisk {
        MemDisk { names: HashMap::new(), inodes: Vec::new(), open: HashMap::new(), raw_writes: 0, fail_writes: false }
    }

    fn create(&mut self, name: &str) {
        self.inodes.push(Vec::new());
        self.names.insert(name.to_string(), self.inodes.len() - 1);
    }

    fn open(&mut self, name: &str) -> RawFd {
        let inode = self.names[name];
        let mut fd: RawFd = 3;
        while self.open.contains_key(&fd) {
            fd += 1;
        }
        self.open.insert(fd, inode);
        fd
    }

    fn write(&mut self, fd: RawFd, page: PageID, data: &[u8; PAGE_SIZE]) -> Result<(), FsError> {
        if self.fail_writes {
            return Err(FsError::StorageIO(5));
        }
        let file = &mut self.inodes[self.open[&fd]];
        let start = page as usize * PAGE_SIZE;
        if file.len() < start + PAGE_SIZE {
            file.resize(start + PAGE_SIZE, 0);
        }
        file[start..start + PAGE_SIZE].copy_from_slice(data);
        self.raw_writes += 1;
        Ok(())
    }

    fn read(&self, fd: RawFd, page: PageID, buf: &mut [u8; PAGE_SIZE]) -> usize {
        let file = &self.inodes[self.open[&fd]];
        let start = page as usize * PAGE_SIZE;
        if start >= file.len() {
            return 0;
        }
        let n = std::cmp::min(PAGE_SIZE, file.len() - start);
        buf[..n].copy_from_slice(&file[start..start + n]);
        n
    }

    fn page_of(&self, name: &str, page: usize) -> Vec<u8> {
        let file = &self.inodes[self.names[name]];
        let start = page * PAGE_SIZE;
        let mut out = vec![0u8; PAGE_SIZE];
        if start < file.len() {
            let n = std::cmp::min(PAGE_SIZE, file.len() - start);
            out[..n].copy_from_slice(&file[start..start + n]);
        }
        out
    }
}

/// The store driven over a `MemDisk`, one call per file operation.
struct Store {
    fs: FS,
    disk: MemDisk,
}

impl Store {
    fn new() -> Store {
        Store { fs: FS::new(), disk: MemDisk::new() }
    }

    fn write_back(&mut self, ws: &[WriteBack]) -> Result<(), FsError> {
        for w in ws {
            self.disk.write(w.fd, w.page, &w.data)?;
        }
        Ok(())
    }

    fn make_room(&mut self, fd: RawFd, page: PageID) -> Result<(), FsError> {
        if let Some(w) = self.fs.displaced_by(fd, page) {
            self.disk.write(w.fd, w.page, &w.data)?;
            self.fs.write_back_done(w.fd, w.page);
        }
        Ok(())
    }

    fn create_file(&mut self, name: &str) -> Result<(), FsError> {
        self.fs.begin_create(name)?;
        self.disk.create(name);
        self.fs.finish_create(name);
        Ok(())
    }

    fn open_file(&mut self, name: &str) -> Result<RawFd, FsError> {
        self.fs.begin_open(name)?;
        let fd = self.disk.open(name);
        assert!(!self.fs.is_open(fd));
        self.fs.finish_open(name, fd);
        Ok(fd)
    }

    fn close_file(&mut self, fd: RawFd) -> Result<(), FsError> {
        let ws = self.fs.begin_close(fd)?;
        self.write_back(&ws)?;
        self.fs.finish_close(fd);
        self.disk.open.remove(&fd);
        Ok(())
    }

    fn remove_file(&mut self, name: &str) -> Result<(), FsError> {
        let ws = self.fs.begin_remove(name)?;
        self.write_back(&ws)?;
        self.disk.names.remove(name);
        self.fs.finish_remove(name);
        Ok(())
    }

    fn read_page(&mut self, fd: RawFd, page: PageID, buf: &mut [u8; PAGE_SIZE]) -> Result<usize, FsError> {
        if !self.fs.read_page(fd, page, buf)? {
            let n = self.disk.read(fd, page, buf);
            self.make_room(fd, page)?;
            self.fs.finish_read(fd, page, buf, n);
        }
        Ok(PAGE_SIZE)
    }

    fn write_page(&mut self, fd: RawFd, page: PageID, buf: &[u8; PAGE_SIZE]) -> Result<usize, FsError> {
        if !self.fs.write_page(fd, page, buf)? {
            self.disk.write(fd, page, buf)?;
            self.make_room(fd, page)?;
            self.fs.finish_write(fd, page, buf);
        }
        Ok(PAGE_SIZE)
    }
}

fn letters() -> [u8; PAGE_SIZE] {
    let mut buf: [u8; PAGE_SIZE] = [1; PAGE_SIZE];
    for i in 0..PAGE_SIZE {
        buf[i] = 97 + (i as u8) % 26;
    }
    buf
}

fn filled(b: u8) -> [u8; PAGE_SIZE] {
    [b; PAGE_SIZE]
}

#[test]
fn file_system_test_create_success() {
    let mut fs = Store::new();
    fs.create_file("file1").unwrap();
    fs.create_file("file2").unwrap();
}

#[test]
fn file_system_test_create_failure() {
    let mut fs = Store::new();
    fs.create_file("file1").unwrap();
    fs.create_file("file2").unwrap();
    if fs.create_file("file1").is_ok() {
        panic!("fuck");
    };
}

#[test]
fn file_system_test_open_close_success() {
    let mut fs = Store::new();
    fs.create_file("file1").unwrap();
    fs.create_file("file2").unwrap();
    let fd1 = fs.open_file("file1").unwrap();
    let fd2 = fs.open_file("file2").unwrap();
    fs.close_file(fd1).unwrap();
    fs.close_file(fd2).unwrap();
}

#[test]
fn file_system_test_double_opening() {
    let mut fs = Store::new();
    fs.create_file("file1").unwrap();
    fs.open_file("file1").unwrap();
    if fs.open_file("file1").is_ok() {
        panic!("fuck");
    }
}

#[test]
fn file_system_test_double_closing() {
    let mut fs = Store::new();
    fs.create_file("file1").unwrap();
    let fd1 = fs.open_file("file1").unwrap();
    fs.close_file(fd1).unwrap();
    if fs.close_file(fd1).is_ok() {
        panic!("fuck");
    }
}

#[test]
fn file_system_test_create_open_close_remove_recreate() {
    let mut fs = Store::new();
    fs.create_file("file1").unwrap();
    fs.create_file("file2").unwrap();
    fs.open_file("file1").unwrap();
    // remove an open file
    fs.remove_file("file1").unwrap();
    // remove a closed file
    fs.remove_file("file2").unwrap();
    // recreate the removed files
    fs.create_file("file1").unwrap();
    fs.create_file("file2").unwrap();
    // open the recreated files
    let fd1 = fs.open_file("file1").unwrap();
    let fd2 = fs.open_file("file2").unwrap();
    fs.close_file(fd1).unwrap();
    fs.close_file(fd2).unwrap();
    fs.remove_file("file1").unwrap();
    fs.remove_file("file2").unwrap();
}

#[test]
fn file_system_test_read_write_page() {
    let mut fs = Store::new();
    fs.create_file("file1").unwrap();
    let fd1 = fs.open_file("file1").unwrap();
    let buf = letters();
    fs.write_page(fd1, 0, &buf).unwrap();
    let mut buf2: [u8; PAGE_SIZE] = [0; PAGE_SIZE];
    fs.read_page(fd1, 0, &mut buf2).unwrap();
    fs.close_file(fd1).unwrap();
    assert_eq!(buf, buf2);
}

#[test]
fn mod_test_create_success() {
    let filename1 = "file1_test_create_success";
    let filename2 = "file2_test_create_success";
    let mut fs = Store::new();
    fs.create_file(filename1).unwrap();
    fs.create_file(filename2).unwrap();
    fs.remove_file(filename1).unwrap();
    fs.remove_file(filename2).unwrap();
}

#[test]
fn mod_test_create_failure() {
    let filename1 = "file1_test_create_failure";
    let filename2 = "file2_test_create_failure";
    let mut fs = Store::new();
    fs.create_file(filename1).unwrap();
    fs.create_file(filename2).unwrap();
    if fs.create_file(filename1).is_ok() {
        panic!("fuck");
    };
    fs.remove_file(filename1).unwrap();
    fs.remove_file(filename2).unwrap();
}

#[test]
fn mod_test_open_close_success() {
    let filename1 = "file1_test_open_close_success";
    let filename2 = "file2_test_open_close_success";
    let mut fs = Store::new();
    fs.create_file(filename1).unwrap();
    fs.create_file(filename2).unwrap();
    let fd1 = fs.open_file(filename1).unwrap();
    let fd2 = fs.open_file(filename2).unwrap();
    fs.close_file(fd1).unwrap();
    fs.close_file(fd2).unwrap();
    fs.remove_file(filename1).unwrap();
    fs.remove_file(filename2).unwrap();
}

#[test]
fn mod_test_double_opening() {
    let filename = "file_test_double_opening";
    let mut fs = Store::new();
    fs.create_file(filename).unwrap();
    fs.open_file(filename).unwrap();
    if fs.open_file(filename).is_ok() {
        panic!("fuck");
    }
    fs.remove_file(filename).unwrap();
}

#[test]
fn mod_test_double_closing() {
    let filename = "file_test_double_closing";
    let mut fs = Store::new();
    fs.create_file(filename).unwrap();
    let fd1 = fs.open_file(filename).unwrap();
    fs.close_file(fd1).unwrap();
    if fs.close_file(fd1).is_ok() {
        panic!("fuck");
    }
    fs.remove_file(filename).unwrap();
}

#[test]
fn mod_test_create_open_close_remove_recreate() {
    let mut fs = Store::new();
    fs.create_file("file1").unwrap();
    fs.create_file("file2").unwrap();
    fs.open_file("file1").unwrap();
    fs.remove_file("file1").unwrap();
    fs.remove_file("file2").unwrap();
    fs.create_file("file1").unwrap();
    fs.create_file("file2").unwrap();
    let fd1 = fs.open_file("file1").unwrap();
    let fd2 = fs.open_file("file2").unwrap();
    fs.close_file(fd1).unwrap();
    fs.close_file(fd2).unwrap();
    fs.remove_file("file1").unwrap();
    fs.remove_file("file2").unwrap();
}

#[test]
fn mod_test_read_write_page() {
    let filename = "file_test_read_write_page";
    let mut fs = Store::new();
    fs.create_file(filename).unwrap();
    let fd1 = fs.open_file(filename).unwrap();
    let buf = letters();
    fs.write_page(fd1, 0, &buf).unwrap();
    let mut buf2: [u8; PAGE_SIZE] = [0; PAGE_SIZE];
    fs.read_page(fd1, 0, &mut buf2).unwrap();
    // remove the file without closing it first
    fs.remove_file(filename).unwrap();
    assert_eq!(buf, buf2);
}

#[test]
fn test_100pages_write_read() {
    let filename = "file_test_100pages_write_read";
    let mut data: Vec<u8> = vec![0; 100 * PAGE_SIZE];
    for i in 0..100 * PAGE_SIZE {
        data[i] = i as u8;
    }
    let mut fs = Store::new();
    fs.create_file(filename).unwrap();
    let fd1 = fs.open_file(filename).unwrap();
    for page in 0..100 {
        let chunk: [u8; PAGE_SIZE] =
            data[page as usize * PAGE_SIZE..(page + 1) as usize * PAGE_SIZE].try_into().unwrap();
        fs.write_page(fd1, page, &chunk).unwrap();
    }
    fs.close_file(fd1).unwrap();
    let fd2 = fs.open_file(filename).unwrap();
    let mut buf2: [u8; PAGE_SIZE] = [1; PAGE_SIZE];
    for page in 0..100 {
        fs.read_page(fd2, page, &mut buf2).unwrap();
        assert_eq!(data[page as usize * PAGE_SIZE..(page + 1) as usize * PAGE_SIZE], buf2);
    }
    fs.remove_file(filename).unwrap();
}

#[test]
fn open_twice_without_close_is_already_open() {
    let mut fs = Store::new();
    fs.create_file("a").unwrap();
    let fd = fs.open_file("a").unwrap();
    assert_eq!(fs.open_file("a"), Err(FsError::AlreadyOpen));
    fs.close_file(fd).unwrap();
    let fd2 = fs.open_file("a").unwrap();
    assert!(fs.fs.is_open(fd2));
}

#[test]
fn write_then_read_with_unrelated_accesses_between() {
    let mut fs = Store::new();
    fs.create_file("a").unwrap();
    fs.create_file("b").unwrap();
    let fa = fs.open_file("a").unwrap();
    let fb = fs.open_file("b").unwrap();
    fs.write_page(fa, 5, &filled(7)).unwrap();
    fs.write_page(fb, 5, &filled(8)).unwrap();
    fs.write_page(fa, 6, &filled(9)).unwrap();
    let mut out = [0u8; PAGE_SIZE];
    fs.read_page(fb, 900, &mut out).unwrap();
    assert_eq!(out, filled(0));
    fs.read_page(fa, 5, &mut out).unwrap();
    assert_eq!(out, filled(7));
    fs.read_page(fb, 5, &mut out).unwrap();
    assert_eq!(out, filled(8));
}

#[test]
fn dirty_page_is_written_back_on_close() {
    let mut fs = Store::new();
    fs.create_file("a").unwrap();
    let fd = fs.open_file("a").unwrap();
    // a miss goes to storage at once; the second write hits and stays cached
    fs.write_page(fd, 2, &filled(1)).unwrap();
    fs.write_page(fd, 2, &filled(2)).unwrap();
    assert_eq!(fs.disk.page_of("a", 2), filled(1).to_vec());
    fs.close_file(fd).unwrap();
    assert_eq!(fs.disk.page_of("a", 2), filled(2).to_vec());
    let fd2 = fs.open_file("a").unwrap();
    let mut out = [0u8; PAGE_SIZE];
    fs.read_page(fd2, 2, &mut out).unwrap();
    assert_eq!(out, filled(2));
}

#[test]
fn conflicting_page_evicts_dirty_page_with_write_back() {
    let mut fs = Store::new();
    fs.create_file("a").unwrap();
    let fd = fs.open_file("a").unwrap();
    // pages 0 and 64 of one handle share a slot
    fs.write_page(fd, 0, &filled(1)).unwrap();
    fs.write_page(fd, 0, &filled(2)).unwrap();
    let writes = fs.disk.raw_writes;
    fs.write_page(fd, 64, &filled(3)).unwrap();
    // the new page and the evicted page
    assert_eq!(fs.disk.raw_writes, writes + 2);
    assert_eq!(fs.disk.page_of("a", 0), filled(2).to_vec());
    let mut out = [0u8; PAGE_SIZE];
    assert_eq!(fs.fs.read_page(fd, 0, &mut out), Ok(false));
    fs.read_page(fd, 0, &mut out).unwrap();
    assert_eq!(out, filled(2));
    fs.read_page(fd, 64, &mut out).unwrap();
    assert_eq!(out, filled(3));
}

#[test]
fn lifecycle_errors() {
    let mut fs = Store::new();
    assert_eq!(fs.open_file("none"), Err(FsError::NotFound));
    assert_eq!(fs.remove_file("none"), Err(FsError::NotFound));
    assert_eq!(fs.close_file(3), Err(FsError::NotOpen));
    fs.create_file("a").unwrap();
    assert_eq!(fs.create_file("a"), Err(FsError::AlreadyExists));
    let fd = fs.open_file("a").unwrap();
    fs.close_file(fd).unwrap();
    assert_eq!(fs.close_file(fd), Err(FsError::NotOpen));
    let mut out = [0u8; PAGE_SIZE];
    assert_eq!(fs.fs.read_page(fd, 0, &mut out), Err(FsError::NotOpen));
    assert_eq!(fs.fs.write_page(fd, 0, &out), Err(FsError::NotOpen));
}

#[test]
fn recreated_file_is_fresh_under_reused_handle() {
    let mut fs = FS::new();
    fs.begin_create("n").unwrap();
    fs.finish_create("n");
    fs.begin_open("n").unwrap();
    fs.finish_open("n", 5);
    assert_eq!(fs.write_page(5, 1, &filled(4)), Ok(false));
    assert!(fs.displaced_by(5, 1).is_none());
    fs.finish_write(5, 1, &filled(4));
    assert_eq!(fs.write_page(5, 1, &filled(6)), Ok(true));
    let ws = fs.begin_remove("n").unwrap();
    assert_eq!(ws.len(), 1);
    assert_eq!((ws[0].fd, ws[0].page, ws[0].data), (5, 1, filled(6)));
    fs.finish_remove("n");
    fs.begin_create("n").unwrap();
    fs.finish_create("n");
    fs.begin_open("n").unwrap();
    fs.finish_open("n", 5);
    let mut out = filled(9);
    assert_eq!(fs.read_page(5, 1, &mut out), Ok(false));
    assert_eq!(out, filled(9));
    assert!(fs.displaced_by(5, 1).is_none());
    fs.finish_read(5, 1, &mut out, 0);
    assert_eq!(out, filled(0));
}

#[test]
fn short_read_is_padded_with_zeros() {
    let mut fs = FS::new();
    fs.begin_create("n").unwrap();
    fs.finish_create("n");
    fs.finish_open("n", 3);
    let mut out = filled(7);
    assert_eq!(fs.read_page(3, 0, &mut out), Ok(false));
    fs.finish_read(3, 0, &mut out, 10);
    assert_eq!(&out[..10], &[7u8; 10]);
    assert!(out[10..].iter().all(|b| *b == 0));
    let mut again = [1u8; PAGE_SIZE];
    assert_eq!(fs.read_page(3, 0, &mut again), Ok(true));
    assert_eq!(again, out);
}

#[test]
fn close_hands_back_only_dirty_pages() {
    let mut fs = FS::new();
    fs.begin_create("n").unwrap();
    fs.finish_create("n");
    fs.finish_open("n", 4);
    for page in 0..3 {
        assert_eq!(fs.write_page(4, page, &filled(1)), Ok(false));
        fs.finish_write(4, page, &filled(1));
    }
    assert_eq!(fs.write_page(4, 1, &filled(2)), Ok(true));
    let ws = fs.begin_close(4).unwrap();
    assert_eq!(ws.len(), 1);
    assert_eq!((ws[0].fd, ws[0].page, ws[0].data), (4, 1, filled(2)));
    // nothing changes until the close is finished
    assert!(fs.is_open(4));
    fs.finish_close(4);
    assert!(!fs.is_open(4));
    assert_eq!(fs.begin_close(4).err(), Some(FsError::NotOpen));
    assert_eq!(fs.begin_open("n"), Ok(()));
}

#[test]
fn failed_flush_aborts_remove() {
    let mut fs = Store::new();
    fs.create_file("a").unwrap();
    let fd = fs.open_file("a").unwrap();
    fs.write_page(fd, 3, &filled(1)).unwrap();
    fs.write_page(fd, 3, &filled(2)).unwrap();
    fs.disk.fail_writes = true;
    assert_eq!(fs.remove_file("a"), Err(FsError::StorageIO(5)));
    // the name and its handle are still there, with the dirty page cached
    assert!(fs.fs.is_open(fd));
    assert_eq!(fs.open_file("a"), Err(FsError::AlreadyOpen));
    let mut out = [0u8; PAGE_SIZE];
    assert_eq!(fs.fs.read_page(fd, 3, &mut out), Ok(true));
    assert_eq!(out, filled(2));
    fs.disk.fail_writes = false;
    fs.remove_file("a").unwrap();
    assert_eq!(fs.open_file("a"), Err(FsError::NotFound));
}

#[test]
fn failed_flush_aborts_close() {
    let mut fs = Store::new();
    fs.create_file("a").unwrap();
    let fd = fs.open_file("a").unwrap();
    fs.write_page(fd, 0, &filled(1)).unwrap();
    fs.write_page(fd, 0, &filled(2)).unwrap();
    fs.disk.fail_writes = true;
    assert_eq!(fs.close_file(fd), Err(FsError::StorageIO(5)));
    assert!(fs.fs.is_open(fd));
    fs.disk.fail_writes = false;
    fs.close_file(fd).unwrap();
    assert_eq!(fs.disk.page_of("a", 0), filled(2).to_vec());
}

#[test]
fn failed_write_back_keeps_dirty_page_cached() {
    let mut fs = FS::new();
    fs.begin_create("n").unwrap();
    fs.finish_create("n");
    fs.finish_open("n", 4);
    assert_eq!(fs.write_page(4, 0, &filled(1)), Ok(false));
    fs.finish_write(4, 0, &filled(1));
    assert_eq!(fs.write_page(4, 0, &filled(2)), Ok(true));
    // page 64 shares the slot; asking what it displaces changes nothing
    let w = fs.displaced_by(4, 64).unwrap();
    assert_eq!((w.fd, w.page, w.data), (4, 0, filled(2)));
    let mut out = [0u8; PAGE_SIZE];
    assert_eq!(fs.read_page(4, 0, &mut out), Ok(true));
    assert_eq!(out, filled(2));
    // once persisted, the slot is clean and can be reused
    fs.write_back_done(4, 0);
    assert!(fs.displaced_by(4, 64).is_none());
    assert_eq!(fs.read_page(4, 0, &mut out), Ok(true));
    assert_eq!(out, filled(2));
    fs.finish_write(4, 64, &filled(3));
    assert_eq!(fs.read_page(4, 0, &mut out), Ok(false));
    assert_eq!(fs.read_page(4, 64, &mut out), Ok(true));
    assert_eq!(out, filled(3));
}

#[test]
fn new_store_cache_is_empty() {
    let fs = FS::new();
    let mut out = [0u8; PAGE_SIZE];
    assert_eq!(fs.read_page(3, 0, &mut out), Err(FsError::NotOpen));
    assert!(!fs.is_open(3));
}
