use bcfs::error::Error;
use bcfs::memchain::{Blockchain, Frame, Transaction, TransactionOutcome};
use bcfs::path::home;
use bcfs::rpc::{BuildContext, BuildTarget, StateMutability, Type, TypeDef};
use bcfs::state::{addr_to_vec, Account, AccountMap, MapVec, PendingTransaction, Storage};
use bcfs::types::{addr_eq, Address, ExtStatusCode};

fn genesis() -> AccountMap {
    let mut state: AccountMap = MapVec::new();
    let mut storage1: Storage = MapVec::new();
    storage1.insert(b"k".to_vec(), b"v".to_vec());
    state.insert(
        [1u8; 20].to_vec(),
        Account { balance: 1_000_000_000, code: b"code1".to_vec(), storage: storage1, expiry: None },
    );
    state.insert(
        [2u8; 20].to_vec(),
        Account { balance: 2_000_000_000, code: b"code2".to_vec(), storage: MapVec::new(), expiry: None },
    );
    state
}

fn outer_ptx() -> PendingTransaction {
    PendingTransaction::new(
        Address([1u8; 20]),
        Address([1u8; 20]),
        0,
        Vec::new(),
        genesis(),
        2100,
        42000,
    )
}

#[test]
fn storage_map_basics() {
    let mut m: Storage = MapVec::new();
    assert!(!m.contains_key(b"a"));
    m.insert(b"a".to_vec(), b"1".to_vec());
    m.insert(b"b".to_vec(), b"2".to_vec());
    assert_eq!(m.get(b"a"), Some(&b"1".to_vec()));
    m.insert(b"a".to_vec(), b"3".to_vec());
    assert_eq!(m.get(b"a"), Some(&b"3".to_vec()));
    assert_eq!(m.remove(b"a"), Some(b"3".to_vec()));
    assert_eq!(m.remove(b"a"), None);
    assert_eq!(m.get(b"b"), Some(&b"2".to_vec()));
}

#[test]
fn addresses() {
    let a = Address([9u8; 20]);
    let b = Address([9u8; 20]);
    let c = Address([8u8; 20]);
    assert!(addr_eq(&a, &b));
    assert!(!addr_eq(&a, &c));
    assert_eq!(addr_to_vec(&a), vec![9u8; 20]);
}

#[test]
fn ptx_kv_and_emit() {
    let mut px = outer_ptx();
    assert_eq!(px.kv_get(b"k"), Some(&b"v".to_vec()));
    px.kv_insert(b"k2".to_vec(), b"v2".to_vec());
    assert_eq!(px.kv_get(b"k2"), Some(&b"v2".to_vec()));
    assert_eq!(px.kv_remove(b"k2"), Some(b"v2".to_vec()));
    assert!(!px.kv_contains(b"k2"));

    let topics = vec![b"abc".to_vec(), vec![7u8; 40]];
    px.emit(&topics, b"payload");
    assert_eq!(px.events.len(), 1);
    assert_eq!(px.events[0].topics[0].len(), 32);
    assert_eq!(&px.events[0].topics[0][..3], b"abc");
    assert_eq!(px.events[0].topics[1], vec![7u8; 32]);
    assert_eq!(px.events[0].data, b"payload");

    px.append_output(b"done");
    assert_eq!(px.output, b"done");
}

#[test]
fn transact_outcomes() {
    let px = outer_ptx();
    // unknown callee
    match px.transact_begin(Address([7u8; 20]), 0, Vec::new()) {
        Err(o) => assert_eq!(o, TransactionOutcome::InvalidCallee),
        Ok(_) => panic!("unknown callee accepted"),
    }
    // more value than the caller holds
    match px.transact_begin(Address([2u8; 20]), 2_000_000_000, Vec::new()) {
        Err(o) => assert_eq!(o, TransactionOutcome::InsufficientFunds),
        Ok(_) => panic!("uncovered value accepted"),
    }
    // not enough gas
    let poor = PendingTransaction::new(
        Address([1u8; 20]),
        Address([1u8; 20]),
        0,
        Vec::new(),
        genesis(),
        2100,
        100,
    );
    match poor.transact_begin(Address([2u8; 20]), 0, Vec::new()) {
        Err(o) => assert_eq!(o, TransactionOutcome::InsufficientGas),
        Ok(_) => panic!("gasless call accepted"),
    }
    // a working call transfers the value
    let sub = px.transact_begin(Address([2u8; 20]), 42, b"in".to_vec()).unwrap();
    assert_eq!(sub.value, 42);
    assert_eq!(sub.input, b"in");
    assert!(addr_eq(sub.address(), &Address([2u8; 20])));
    assert!(addr_eq(sub.sender(), &Address([1u8; 20])));
}

#[test]
fn transact_settlement() {
    let mut px = outer_ptx();
    let mut sub = px.transact_begin(Address([2u8; 20]), 0, Vec::new()).unwrap();
    sub.kv_insert(b"written".to_vec(), b"yes".to_vec());
    sub.emit(&vec![b"t".to_vec()], b"d");
    sub.append_output(b"ret");
    let receipt = px.transact_finish(sub, 0);
    assert_eq!(receipt.outcome, TransactionOutcome::Success);
    assert!(!receipt.reverted());
    assert_eq!(receipt.output, b"ret");
    assert_eq!(receipt.events.len(), 1);
    assert_eq!(px.events.len(), 1);

    // an aborted call keeps nothing
    let mut px2 = outer_ptx();
    let mut sub2 = px2.transact_begin(Address([2u8; 20]), 0, Vec::new()).unwrap();
    sub2.emit(&vec![b"t".to_vec()], b"d");
    sub2.err(b"boom");
    let receipt2 = px2.transact_finish(sub2, 0);
    assert_eq!(receipt2.outcome, TransactionOutcome::Aborted);
    assert!(receipt2.reverted());
    assert_eq!(receipt2.output, b"boom");
    assert!(receipt2.events.is_empty());
    assert!(px2.events.is_empty());
}

#[test]
fn memchain_blocks() {
    let mut bc = Blockchain::new(genesis());
    assert!(bc.current_tx().is_none());
    assert!(bc.current_state().contains_key(&[1u8; 20]));

    let block = bc.last_block_mut();
    block.transact(
        Address([1u8; 20]),
        Address([2u8; 20]),
        2100,
        String::from("main"),
        b"in".to_vec(),
    );
    let tx = bc.current_tx().expect("one transaction");
    assert!(addr_eq(&tx.current_frame().callee, &Address([2u8; 20])));
    assert!(tx.current_account().is_some());
    assert!(tx.state().contains_key(&[1u8; 20]));
}

#[test]
fn memchain_tx_frames_and_logs() {
    let state = genesis();
    let mut tx = Transaction::new(Frame::default(), &state);
    assert_eq!(tx.logs.len(), 0);
    tx.log(vec![b"topic".to_vec()], b"data".to_vec());
    assert_eq!(tx.logs.len(), 1);
    let frame = tx.current_frame_mut();
    frame.ret_buf = b"result".to_vec();
    assert_eq!(tx.current_frame().ret_buf, b"result");
}

#[test]
fn error_from_status() {
    assert_eq!(
        Error::from_status(ExtStatusCode::insufficient_funds(), Vec::new()),
        Error::InsufficientFunds
    );
    assert_eq!(Error::from_status(ExtStatusCode::invalid_input(), Vec::new()), Error::InvalidInput);
    assert_eq!(Error::from_status(ExtStatusCode(77), Vec::new()), Error::Unknown);
    assert_eq!(
        Error::from_status(ExtStatusCode(500), b"p".to_vec()),
        Error::Execution { code: 500, payload: b"p".to_vec() }
    );
    assert_eq!(Error::OutOfGas.describe(), "out of gas");
}

#[test]
fn typedef_names() {
    let s = TypeDef::Struct { name: String::from("Point"), fields: Vec::new() };
    let e = TypeDef::Enum { name: String::from("Kind"), variants: Vec::new() };
    let v = TypeDef::Event { name: String::from("Ping"), fields: Vec::new() };
    assert_eq!(s.name(), "Point");
    assert_eq!(e.name(), "Kind");
    assert_eq!(v.name(), "Ping");
    assert!(matches!(Type::MapOf(Box::new(Type::String), Box::new(Type::U64)), Type::MapOf(..)));
}

#[test]
fn build_context() {
    let ctx = BuildContext {
        target: BuildTarget::Wasi,
        crate_name: String::from("svc"),
        out_dir: String::from("out"),
    };
    assert_eq!(ctx.target, BuildTarget::Wasi);
    assert!(matches!(StateMutability::Mutable, StateMutability::Mutable));
}

#[test]
fn home_path() {
    let p = home(&Address([2u8; 20]), b"balance");
    let mut expected = b"/opt/oasis/".to_vec();
    expected.extend_from_slice(b"0202020202020202020202020202020202020202");
    expected.extend_from_slice(b"/balance");
    assert_eq!(p, expected);
}
