use bcfs::bcfs::BCFS;
use bcfs::codec::create_log;
use bcfs::file::{FdFlags, OpenFlags, Whence, CHAIN_DIR_FILENO, HOME_DIR_FILENO};
use bcfs::state::{Account, AccountMap, MapVec, PendingTransaction, Storage};
use bcfs::types::{Address, Event};

const CHAIN_NAME: &[u8] = b"testchain";

fn account(i: u8) -> Account {
    let mut storage: Storage = MapVec::new();
    storage.insert(b"common_key".to_vec(), b"common_value".to_vec());
    storage.insert(format!("key_{}", i).into_bytes(), format!("value_{}", i).into_bytes());
    Account {
        balance: (i as u128) * 1_000_000_000,
        code: format!("\0asm not wasm {}", i).into_bytes(),
        storage,
        expiry: None,
    }
}

fn setup() -> (BCFS, PendingTransaction) {
    let addr1 = Address([1u8; 20]);
    let addr2 = Address([2u8; 20]);
    let mut state: AccountMap = MapVec::new();
    state.insert(addr1.0.to_vec(), account(1));
    state.insert(addr2.0.to_vec(), account(2));
    let outer = PendingTransaction::new(addr1, addr1, 0, Vec::new(), state, 2100, 42000);
    let sub = outer
        .transact_begin(addr2, 0, b"input".to_vec())
        .expect("nested call should start");
    let fs = BCFS::new(&addr2, CHAIN_NAME);
    (fs, sub)
}

#[test]
fn tempfile() {
    let (mut fs, mut px) = setup();

    let temp_fd = fs.tempfile(&px).unwrap();
    let write_buf = b"ephemeral";
    fs.write_vectored(&px, temp_fd, &vec![write_buf.to_vec()]).unwrap();
    fs.seek(&px, temp_fd, 0, Whence::Start).unwrap();
    let mut read_buf = vec![vec![0u8; write_buf.len()]];
    fs.read_vectored(&px, temp_fd, &mut read_buf).unwrap();
    assert_eq!(read_buf[0].as_slice(), write_buf);
    fs.flush(&mut px, temp_fd).unwrap();

    // the persistent account storage is untouched
    assert_eq!(px.kv_get(b"common_key"), Some(&b"common_value".to_vec()));
    assert_eq!(px.kv_get(b"key_2"), Some(&b"value_2".to_vec()));
    assert!(px.kv_get(b"ephemeral").is_none());
    assert!(px.output.is_empty());
    assert!(px.events.is_empty());
}

#[test]
fn flush_log_to_ptx() {
    let (mut fs, mut px) = setup();

    let log_fd = fs
        .open(&px, CHAIN_DIR_FILENO, b"log", OpenFlags::empty(), FdFlags::append())
        .unwrap();
    let (topics, data, log) = create_log();
    fs.write_vectored(&px, log_fd, &vec![log]).unwrap();
    fs.flush(&mut px, log_fd).unwrap();

    assert_eq!(px.events.len(), 1);
    let expected_topics: Vec<Vec<u8>> = topics
        .iter()
        .map(|t| {
            let mut t_bytes = vec![0u8; 32];
            let t_len = std::cmp::min(t.len(), 32);
            t_bytes[..t_len].copy_from_slice(&t[..t_len]);
            t_bytes
        })
        .collect();
    assert_eq!(
        px.events[0],
        Event { emitter: Address([2u8; 20]), topics: expected_topics, data }
    );
}

#[test]
fn flush_output_to_ptx() {
    const OUTPUT: &[u8] = b"output";
    let (mut fs, mut px) = setup();

    let stdout_fd = 1u32;
    fs.write_vectored(&px, stdout_fd, &vec![OUTPUT.to_vec()]).unwrap();
    fs.flush(&mut px, stdout_fd).unwrap();

    assert_eq!(px.output.as_slice(), OUTPUT);
}

#[test]
fn balance_unaffected_by_later_changes() {
    // the balance snapshot is taken at open time
    let (mut fs, mut px) = setup();
    let fd = fs
        .open(&px, HOME_DIR_FILENO, b"balance", OpenFlags::empty(), FdFlags::empty())
        .unwrap();
    // storage writes within the same transaction do not disturb the snapshot
    px.kv_insert(b"later".to_vec(), b"write".to_vec());
    let mut read_buf = vec![vec![0u8; 16]];
    assert_eq!(fs.read_vectored(&px, fd, &mut read_buf), Ok(16));
    let mut arr = [0u8; 16];
    arr.copy_from_slice(&read_buf[0]);
    assert_eq!(u128::from_le_bytes(arr), 2_000_000_000);
}

#[test]
fn log_flush_without_writes_emits_nothing() {
    let (mut fs, mut px) = setup();
    let fd = fs
        .open(&px, CHAIN_DIR_FILENO, b"log", OpenFlags::empty(), FdFlags::append())
        .unwrap();
    fs.flush(&mut px, fd).unwrap();
    assert!(px.events.is_empty());
}

#[test]
fn aliased_writes_reach_storage_only_on_flush() {
    let (mut fs, mut px) = setup();
    let a = fs
        .open(&px, HOME_DIR_FILENO, b"shared", OpenFlags::create(), FdFlags::empty())
        .unwrap();
    let b = fs
        .open(&px, HOME_DIR_FILENO, b"shared", OpenFlags::empty(), FdFlags::empty())
        .unwrap();
    fs.write_vectored(&px, a, &vec![b"visible".to_vec()]).unwrap();
    // visible through the other handle at once
    let mut read_buf = vec![vec![0u8; 7]];
    assert_eq!(fs.pread_vectored(&px, b, &mut read_buf, 0), Ok(7));
    assert_eq!(read_buf[0], b"visible");
    // but not yet in storage
    assert!(px.kv_get(b"shared").is_none());
    fs.flush(&mut px, a).unwrap();
    assert_eq!(px.kv_get(b"shared"), Some(&b"visible".to_vec()));
}

#[test]
fn round_trip_persists_bytes() {
    // write, close, reopen without truncate, read
    let (mut fs, mut px) = setup();
    let payload = b"forty-two bytes of payload, give or take";
    let fd = fs
        .open(&px, HOME_DIR_FILENO, b"kept", OpenFlags::create(), FdFlags::empty())
        .unwrap();
    fs.write_vectored(&px, fd, &vec![payload.to_vec()]).unwrap();
    fs.close(&mut px, fd).unwrap();
    let fd2 = fs
        .open(&px, HOME_DIR_FILENO, b"kept", OpenFlags::empty(), FdFlags::empty())
        .unwrap();
    let mut read_buf = vec![vec![0u8; payload.len()]];
    assert_eq!(fs.read_vectored(&px, fd2, &mut read_buf), Ok(payload.len()));
    assert_eq!(read_buf[0].as_slice(), payload);
}

#[test]
fn trunc_discards_prior_content() {
    let (mut fs, mut px) = setup();
    let fd = fs
        .open(&px, HOME_DIR_FILENO, b"t", OpenFlags::create(), FdFlags::empty())
        .unwrap();
    fs.write_vectored(&px, fd, &vec![b"A".to_vec()]).unwrap();
    fs.close(&mut px, fd).unwrap();
    let fd2 = fs
        .open(&px, HOME_DIR_FILENO, b"t", OpenFlags::trunc(), FdFlags::empty())
        .unwrap();
    fs.write_vectored(&px, fd2, &vec![b"B".to_vec()]).unwrap();
    fs.close(&mut px, fd2).unwrap();
    assert_eq!(px.kv_get(b"t"), Some(&b"B".to_vec()));
}

#[test]
fn append_lands_at_end_despite_seeks() {
    let (mut fs, mut px) = setup();
    let fd = fs
        .open(&px, HOME_DIR_FILENO, b"a", OpenFlags::create(), FdFlags::append())
        .unwrap();
    fs.write_vectored(&px, fd, &vec![b"first".to_vec()]).unwrap();
    fs.seek(&px, fd, 0, Whence::Start).unwrap();
    fs.write_vectored(&px, fd, &vec![b"second".to_vec()]).unwrap();
    assert_eq!(fs.tell(&px, fd), Ok(11));
    fs.close(&mut px, fd).unwrap();
    assert_eq!(px.kv_get(b"a"), Some(&b"firstsecond".to_vec()));
}
