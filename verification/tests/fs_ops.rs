use bcfs::bcfs::BCFS;
use bcfs::codec::hex_encode;
use bcfs::file::{ErrNo, FdFlags, FileType, OpenFlags, Whence, CHAIN_DIR_FILENO, HOME_DIR_FILENO};
use bcfs::state::{Account, AccountMap, MapVec, PendingTransaction, Storage};
use bcfs::types::Address;

const CHAIN_NAME: &[u8] = b"testchain";

fn account(i: u8) -> Account {
    let mut storage: Storage = MapVec::new();
    storage.insert(b"common_key".to_vec(), b"common_value".to_vec());
    storage.insert(format!("key_{}", i).into_bytes(), format!("value_{}", i).into_bytes());
    Account {
        balance: (i as u128) * 1_000_000_000,
        code: format!("\0asm not wasm {}", i).into_bytes(),
        storage,
        expiry: None,
    }
}

fn setup() -> (BCFS, PendingTransaction) {
    let addr1 = Address([1u8; 20]);
    let addr2 = Address([2u8; 20]);
    let mut state: AccountMap = MapVec::new();
    state.insert(addr1.0.to_vec(), account(1));
    state.insert(addr2.0.to_vec(), account(2));
    let outer = PendingTransaction::new(addr1, addr1, 0, Vec::new(), state, 2100, 42000);
    let sub = outer
        .transact_begin(addr2, 42, b"input".to_vec())
        .expect("nested call should start");
    let fs = BCFS::new(&addr2, CHAIN_NAME);
    (fs, sub)
}

fn good_home() -> Vec<u8> {
    hex_encode(&[2u8; 20])
}

fn join(parts: &[&[u8]]) -> Vec<u8> {
    let mut p = Vec::new();
    for (i, part) in parts.iter().enumerate() {
        if i > 0 {
            p.push(b'/');
        }
        p.extend_from_slice(part);
    }
    p
}

#[test]
fn close_fd() {
    let (mut fs, mut px) = setup();
    for fd in 0u32..=3 {
        assert!(fs.close(&mut px, fd).is_ok());
        assert_eq!(fs.close(&mut px, fd), Err(ErrNo::BadDescriptor));
    }
    for fd in (HOME_DIR_FILENO + 1)..10 {
        assert_eq!(fs.close(&mut px, fd), Err(ErrNo::BadDescriptor));
    }
}

#[test]
fn open_close() {
    let (mut fs, mut px) = setup();
    let home = good_home();
    let abspath = join(&[&home, b".", b".", b"somefile", b"..", b"somefile"]);
    let relpath = b"./././././somefile/../somefile/.".to_vec();

    let abs_fd = fs
        .open(&px, CHAIN_DIR_FILENO, &abspath, OpenFlags::create(), FdFlags::empty())
        .unwrap();
    assert_eq!(
        fs.open(&px, CHAIN_DIR_FILENO, &abspath, OpenFlags::excl(), FdFlags::empty()),
        Err(ErrNo::AlreadyExists)
    );
    let abs_fd2 = fs
        .open(&px, CHAIN_DIR_FILENO, &abspath, OpenFlags::empty(), FdFlags::empty())
        .unwrap();
    let rel_fd = fs
        .open(&px, HOME_DIR_FILENO, &relpath, OpenFlags::empty(), FdFlags::append())
        .unwrap();

    assert!(fs.close(&mut px, abs_fd).is_ok());
    assert!(fs.close(&mut px, abs_fd2).is_ok());
    assert!(fs.close(&mut px, rel_fd).is_ok());
}

#[test]
fn read_write_basic() {
    let (mut fs, px) = setup();
    let fd = fs
        .open(&px, HOME_DIR_FILENO, b"somefile", OpenFlags::create(), FdFlags::empty())
        .unwrap();

    let write_bufs = vec![b"hello".to_vec(), b"world".to_vec()];
    let nbytes = 10usize;

    let mut read_bufs = vec![vec![0u8; 5], vec![0u8; 5]];
    assert_eq!(fs.read_vectored(&px, fd, &mut read_bufs), Ok(0));

    assert_eq!(fs.write_vectored(&px, fd, &write_bufs), Ok(nbytes));
    assert_eq!(fs.read_vectored(&px, fd, &mut read_bufs), Ok(0));

    assert_eq!(fs.seek(&px, fd, 0, Whence::Start), Ok(0));
    assert_eq!(fs.read_vectored(&px, fd, &mut read_bufs), Ok(nbytes));
    assert_eq!(read_bufs[0], b"hello");
    assert_eq!(read_bufs[1], b"world");
    assert_eq!(fs.read_vectored(&px, fd, &mut read_bufs), Ok(0));

    assert_eq!(fs.seek(&px, fd, -(nbytes as i64), Whence::End), Ok(0));
    assert_eq!(fs.read_vectored(&px, fd, &mut read_bufs), Ok(nbytes));
    assert_eq!(read_bufs[0], b"hello");
    assert_eq!(read_bufs[1], b"world");

    assert_eq!(fs.seek(&px, fd, -(nbytes as i64 - 2), Whence::Current), Ok(2));
    assert_eq!(fs.seek(&px, fd, -2, Whence::Current), Ok(0));

    assert_eq!(fs.seek(&px, fd, 0, Whence::End), Ok(nbytes as u64));
    let write_bufs2 = vec![b"hello".to_vec(), b"blockchain".to_vec()];
    let new_nbytes = 15usize;
    assert_eq!(fs.pwrite_vectored(&px, fd, &write_bufs2, 0), Ok(new_nbytes));
    assert_eq!(fs.tell(&px, fd), Ok(nbytes as u64));
    let mut read_bufs2 = vec![vec![0u8; 5], vec![0u8; 10]];
    assert_eq!(fs.pread_vectored(&px, fd, &mut read_bufs2, 0), Ok(new_nbytes));
    assert_eq!(read_bufs2[0], b"hello");
    assert_eq!(read_bufs2[1], b"blockchain");
}

#[test]
fn write_consecutive() {
    let (mut fs, px) = setup();
    let fd = fs
        .open(&px, HOME_DIR_FILENO, b"somefile", OpenFlags::create(), FdFlags::empty())
        .unwrap();

    let write_bufs: &[&[u8]] = &[b"hello", b" world"];
    let nbytes = 11usize;
    for wb in write_bufs {
        assert_eq!(fs.write_vectored(&px, fd, &vec![wb.to_vec()]), Ok(wb.len()));
    }
    assert_eq!(fs.seek(&px, fd, -(nbytes as i64) + 1, Whence::Current), Ok(1));
    let mut read_buf = vec![vec![0u8; nbytes]];
    assert_eq!(fs.read_vectored(&px, fd, &mut read_buf), Ok(nbytes - 1));
    assert_eq!(&read_buf[0][..nbytes - 1], b"ello world");
    assert_eq!(read_buf[0][nbytes - 1], 0);
}

#[test]
fn read_write_aliased() {
    let (mut fs, mut px) = setup();
    let path = b"somefile";
    let abspath = join(&[&good_home(), path]);

    let rel_fd = fs
        .open(&px, HOME_DIR_FILENO, path, OpenFlags::create(), FdFlags::empty())
        .unwrap();
    let abs_fd = fs
        .open(&px, CHAIN_DIR_FILENO, &abspath, OpenFlags::empty(), FdFlags::empty())
        .unwrap();

    let write_bufs = vec![b"hello".to_vec(), b"world".to_vec()];
    assert_eq!(fs.write_vectored(&px, abs_fd, &write_bufs), Ok(10));
    assert_eq!(fs.write_vectored(&px, rel_fd, &vec![b"!".to_vec()]), Ok(1));
    fs.flush(&mut px, abs_fd).unwrap();

    let mut read_bufs = vec![vec![0u8; 5], vec![0u8; 5]];
    assert_eq!(fs.read_vectored(&px, rel_fd, &mut read_bufs), Ok(9));
    assert_eq!(read_bufs[0], b"ellow");
    assert_eq!(read_bufs[1], b"orld\0");

    fs.flush(&mut px, rel_fd).unwrap();
    fs.seek(&px, abs_fd, 0, Whence::Start).unwrap();
    assert_eq!(fs.read_vectored(&px, abs_fd, &mut read_bufs), Ok(10));
    // all handles on one file share a single content buffer, so the
    // one-byte write through the second handle landed at its cursor
    assert_eq!(read_bufs[0], b"!ello");
    assert_eq!(read_bufs[1], b"world");
}

#[test]
fn badf() {
    let (mut fs, mut px) = setup();
    let badf = 99u32;
    assert_eq!(fs.read_vectored(&px, badf, &mut Vec::new()), Err(ErrNo::BadDescriptor));
    assert_eq!(fs.write_vectored(&px, badf, &Vec::new()), Err(ErrNo::BadDescriptor));
    assert_eq!(fs.pread_vectored(&px, badf, &mut Vec::new(), 0), Err(ErrNo::BadDescriptor));
    assert_eq!(fs.pwrite_vectored(&px, badf, &Vec::new(), 0), Err(ErrNo::BadDescriptor));
    assert_eq!(fs.seek(&px, badf, 0, Whence::Start), Err(ErrNo::BadDescriptor));
    assert_eq!(fs.fdstat(&px, badf).unwrap_err(), ErrNo::BadDescriptor);
    assert_eq!(fs.filestat(&px, badf).unwrap_err(), ErrNo::BadDescriptor);
    assert_eq!(fs.tell(&px, badf).unwrap_err(), ErrNo::BadDescriptor);
    assert_eq!(fs.renumber(&mut px, badf, badf).unwrap_err(), ErrNo::BadDescriptor);
    assert_eq!(fs.close(&mut px, badf), Err(ErrNo::BadDescriptor));
}

#[test]
fn renumber() {
    let (mut fs, mut px) = setup();
    let somefile_fd = fs
        .open(&px, HOME_DIR_FILENO, b"somefile", OpenFlags::create(), FdFlags::empty())
        .unwrap();
    let anotherfile_fd = fs
        .open(&px, HOME_DIR_FILENO, b"anotherfile", OpenFlags::create(), FdFlags::empty())
        .unwrap();

    let write_bufs = vec![b"destination".to_vec(), b"somefile".to_vec()];
    fs.write_vectored(&px, somefile_fd, &write_bufs).unwrap();

    fs.renumber(&mut px, somefile_fd, anotherfile_fd).unwrap();
    assert_eq!(fs.read_vectored(&px, somefile_fd, &mut Vec::new()), Err(ErrNo::BadDescriptor));

    let mut read_buf = vec![vec![0u8; 1]];
    assert_eq!(fs.pread_vectored(&px, anotherfile_fd, &mut read_buf, 0), Ok(1));
    assert_eq!(fs.tell(&px, anotherfile_fd), Ok(19));
}

#[test]
fn unlink() {
    let (mut fs, mut px) = setup();
    let fd = fs
        .open(&px, HOME_DIR_FILENO, b"somefile", OpenFlags::create(), FdFlags::empty())
        .unwrap();
    let write_val = b"not empty";
    assert_eq!(fs.write_vectored(&px, fd, &vec![write_val.to_vec()]), Ok(write_val.len()));
    assert!(fs.close(&mut px, fd).is_ok());
    assert_eq!(fs.unlink(&mut px, HOME_DIR_FILENO, b"somefile"), Ok(write_val.len() as u64));
    assert_eq!(
        fs.open(&px, HOME_DIR_FILENO, b"somefile", OpenFlags::empty(), FdFlags::empty()),
        Err(ErrNo::NotFound)
    );
}

fn write_twice(oflags: OpenFlags, fdflags: FdFlags) -> Vec<u8> {
    let (mut fs, mut px) = setup();
    let first = b"some initial, rather lengthy value";
    let second = b"a second value";
    for val in [&first[..], &second[..]] {
        let fd = fs
            .open(&px, HOME_DIR_FILENO, b"somefile", OpenFlags::create().union(oflags), fdflags)
            .unwrap();
        fs.write_vectored(&px, fd, &vec![val.to_vec()]).unwrap();
        fs.close(&mut px, fd).unwrap();
    }
    let fd = fs
        .open(&px, HOME_DIR_FILENO, b"somefile", OpenFlags::empty(), FdFlags::empty())
        .unwrap();
    let mut read_buf = vec![vec![b' '; first.len() + second.len()]];
    fs.read_vectored(&px, fd, &mut read_buf).unwrap();
    let mut out = read_buf.remove(0);
    while out.last() == Some(&b' ') {
        out.pop();
    }
    out
}

#[test]
fn write_trunc() {
    assert_eq!(write_twice(OpenFlags::trunc(), FdFlags::empty()), b"a second value");
}

#[test]
fn write_append() {
    assert_eq!(
        write_twice(OpenFlags::empty(), FdFlags::append()),
        b"some initial, rather lengthy valuea second value"
    );
}

#[test]
fn write_trunc_append() {
    assert_eq!(write_twice(OpenFlags::trunc(), FdFlags::append()), b"a second value");
}

#[test]
fn prestat() {
    let (fs, px) = setup();
    assert_eq!(fs.prestat(&px, CHAIN_DIR_FILENO).unwrap(), b"/opt/testchain");
    assert_eq!(fs.prestat(&px, HOME_DIR_FILENO).unwrap(), b".");
    assert_eq!(fs.prestat(&px, 5), Err(ErrNo::BadDescriptor));
    assert_eq!(fs.prestat(&px, 6), Err(ErrNo::BadDescriptor));
}

#[test]
fn open_bad() {
    let (mut fs, mut px) = setup();
    // opening from a non-directory descriptor
    assert_eq!(
        fs.open(&px, 0, b"file.txt", OpenFlags::empty(), FdFlags::empty()),
        Err(ErrNo::BadDescriptor)
    );
    // opening a path the base directory gives no way to
    assert_eq!(
        fs.open(&px, HOME_DIR_FILENO, b"/opt/testchain", OpenFlags::empty(), FdFlags::empty()),
        Err(ErrNo::NotFound)
    );
    // climbing above the sandbox root
    assert_eq!(
        fs.open(&px, HOME_DIR_FILENO, b"../../../asdf", OpenFlags::empty(), FdFlags::empty()),
        Err(ErrNo::NotFound)
    );
    // the empty path
    assert_eq!(
        fs.open(&px, HOME_DIR_FILENO, b"", OpenFlags::empty(), FdFlags::empty()),
        Err(ErrNo::InvalidArgument)
    );
    // a nonexistent name in the chain directory
    assert_eq!(
        fs.open(&px, CHAIN_DIR_FILENO, b"not-log", OpenFlags::empty(), FdFlags::empty()),
        Err(ErrNo::NotFound)
    );
    // synthetic files exist permanently and cannot be created or truncated
    let specials: [(&[u8], u32); 3] = [
        (b"balance", HOME_DIR_FILENO),
        (b"log", CHAIN_DIR_FILENO),
        (b"bytecode", HOME_DIR_FILENO),
    ];
    for (f, dir) in specials.iter() {
        for oflags in [
            OpenFlags::create(),
            OpenFlags::excl(),
            OpenFlags::create().union(OpenFlags::excl()),
        ] {
            assert_eq!(
                fs.open(&px, *dir, f, oflags, FdFlags::empty()),
                Err(ErrNo::AlreadyExists)
            );
        }
        assert_eq!(
            fs.open(&px, *dir, f, OpenFlags::trunc(), FdFlags::empty()),
            Err(ErrNo::InvalidArgument)
        );
        assert_eq!(fs.unlink(&mut px, *dir, f), Err(ErrNo::AccessDenied));
    }
    // the log is append-only
    assert_eq!(
        fs.open(&px, CHAIN_DIR_FILENO, b"log", OpenFlags::empty(), FdFlags::empty()),
        Err(ErrNo::InvalidArgument)
    );
}

#[test]
fn flush_preopens() {
    let (mut fs, mut px) = setup();
    for fd in 0u32..=4 {
        assert!(fs.flush(&mut px, fd).is_ok());
    }
}

#[test]
fn flush_specials() {
    let (mut fs, mut px) = setup();
    for f in [&b"balance"[..], &b"bytecode"[..]] {
        let fd = fs
            .open(&px, HOME_DIR_FILENO, f, OpenFlags::empty(), FdFlags::empty())
            .unwrap();
        assert!(fs.flush(&mut px, fd).is_ok());
    }
    let fd = fs
        .open(&px, CHAIN_DIR_FILENO, b"log", OpenFlags::empty(), FdFlags::append())
        .unwrap();
    assert!(fs.flush(&mut px, fd).is_ok());
}

#[test]
fn read_specials() {
    let (mut fs, mut px) = setup();
    let mut read_special = |fs: &mut BCFS, px: &mut PendingTransaction, name: &[u8], dir: u32| {
        let fd = fs
            .open(px, dir, name, OpenFlags::empty(), FdFlags::empty())
            .unwrap();
        let mut read_buf = vec![vec![0u8; 20]];
        let nbytes = fs.read_vectored(px, fd, &mut read_buf).unwrap();
        fs.close(px, fd).unwrap();
        (read_buf.remove(0), nbytes)
    };

    let expected_balance: u128 = 2_000_000_042;
    let expected_bytecode = b"\0asm not wasm 2".to_vec();

    let (balance_bytes, nbytes) = read_special(&mut fs, &mut px, b"balance", HOME_DIR_FILENO);
    assert_eq!(nbytes, 16);
    let mut balance_arr = [0u8; 16];
    balance_arr.copy_from_slice(&balance_bytes[..nbytes]);
    assert_eq!(u128::from_le_bytes(balance_arr), expected_balance);

    let (bytecode, nbytes) = read_special(&mut fs, &mut px, b"bytecode", HOME_DIR_FILENO);
    assert_eq!(&bytecode[..nbytes], expected_bytecode.as_slice());

    for fd in 1u32..=2 {
        let mut read_buf = vec![vec![0u8; 0]];
        assert_eq!(fs.read_vectored(&px, fd, &mut read_buf), Err(ErrNo::InvalidArgument));
    }
}

#[test]
fn seek_then_read() {
    let (mut fs, mut px) = setup();
    let write_buf = b"seeked";
    let fd = fs
        .open(&px, HOME_DIR_FILENO, b"hello", OpenFlags::create(), FdFlags::empty())
        .unwrap();
    fs.write_vectored(&px, fd, &vec![write_buf.to_vec()]).unwrap();
    fs.close(&mut px, fd).unwrap();

    for (offset, whence) in [(3usize, Whence::Start), (0usize, Whence::Current)] {
        let fd = fs
            .open(&px, HOME_DIR_FILENO, b"hello", OpenFlags::empty(), FdFlags::empty())
            .unwrap();
        fs.seek(&px, fd, offset as i64, whence).unwrap();
        assert_eq!(fs.tell(&px, fd).unwrap(), offset as u64);
        let mut read_buf = vec![vec![0u8; write_buf.len() - offset]];
        fs.read_vectored(&px, fd, &mut read_buf).unwrap();
        fs.close(&mut px, fd).unwrap();
        assert_eq!(read_buf[0].as_slice(), &write_buf[offset..]);
    }
}

#[test]
fn fdstat() {
    let (fs, px) = setup();
    assert_eq!(fs.fdstat(&px, 0).unwrap().file_type, FileType::RegularFile);
    assert_eq!(fs.fdstat(&px, CHAIN_DIR_FILENO).unwrap().file_type, FileType::Directory);
    assert_eq!(fs.fdstat(&px, 99), Err(ErrNo::BadDescriptor));
}

#[test]
fn stdin_reads_input() {
    let (mut fs, px) = setup();
    let mut read_buf = vec![vec![0u8; 5]];
    assert_eq!(fs.read_vectored(&px, 0, &mut read_buf), Ok(5));
    assert_eq!(read_buf[0], b"input");
    assert_eq!(fs.read_vectored(&px, 0, &mut read_buf), Ok(0));
}

#[test]
fn pwrite_keeps_cursor() {
    let (mut fs, px) = setup();
    let fd = fs
        .open(&px, HOME_DIR_FILENO, b"somefile", OpenFlags::create(), FdFlags::empty())
        .unwrap();
    fs.write_vectored(&px, fd, &vec![b"helloworld".to_vec()]).unwrap();
    let before = fs.tell(&px, fd).unwrap();
    fs.pwrite_vectored(&px, fd, &vec![b"HELLO".to_vec()], 0).unwrap();
    assert_eq!(fs.tell(&px, fd).unwrap(), before);
}
