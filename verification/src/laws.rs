//! The layer's laws: properties that relate several operations, proved
//! over the same transition functions the executable operations are
//! verified against.

use vstd::prelude::*;

use crate::bcfs::{
    addr_of_seg, alive_regular, alloc_fd, balance_seg, close_spec, dir_handle, file_handle,
    first_alive_fd, first_free_from, flush_spec, lemma_first_alive_bounds,
    lemma_first_alive_none, lemma_first_free_bounds, is_dir_path, is_log_path, is_own_regular,
    is_special_pair, key_of, open_resolved, pwrite_spec, read_spec, renumber_spec, write_at,
    write_spec, BcfsV, NodeKind, NodeV,
};
use crate::codec::{encode_log, le_bytes, pad32, parse_log, pow256};
use crate::file::{ErrNo, FdFlags, OpenFlags};
use crate::state::PtxV;

verus! {

/// Closing an open descriptor twice gives `BadDescriptor` the second
/// time, whatever the first close reported.
pub proof fn lemma_close_twice(s: BcfsV, p: PtxV, fd: int)
    requires
        s.fd_ok(fd),
    ensures
        ({
            let (s1, p1, r1) = close_spec(s, p, fd);
            close_spec(s1, p1, fd).2 == Err::<(), ErrNo>(ErrNo::BadDescriptor)
        }),
{
    let (s1, p1, r1) = close_spec(s, p, fd);
    assert(s1.fds[fd] is None);
}

/// Closing an open descriptor succeeds, unless it holds the event log;
/// a log close can fail when its unflushed bytes are malformed.
pub proof fn lemma_close_succeeds(s: BcfsV, p: PtxV, fd: int)
    requires
        s.wf(),
        s.fd_ok(fd),
        !s.handle(fd).is_dir ==> s.node_of(s.handle(fd)).kind != NodeKind::Log,
    ensures
        close_spec(s, p, fd).2 == Ok::<(), ErrNo>(()),
{
}

/// Opening with `Exclusive` set fails with `AlreadyExists` on anything
/// that exists: a directory, a synthetic file, or a stored file that is
/// open or in storage.
pub proof fn lemma_open_excl_existing(s: BcfsV, p: PtxV, c: Seq<Seq<u8>>, of: OpenFlags, ff: FdFlags)
    requires
        of.excl,
        is_dir_path(p, c) || is_log_path(c) || is_special_pair(p, c) || (is_own_regular(s, c) && (
        first_alive_fd(s, key_of(c), 0) < s.fds.len() || p.storage().contains_key(key_of(c)))),
    ensures
        open_resolved(s, p, c, of, ff).1 == Err::<u32, ErrNo>(ErrNo::AlreadyExists),
{
}

/// A positional write never moves any cursor: the descriptor table is
/// exactly what it was.
pub proof fn lemma_pwrite_keeps_cursors(s: BcfsV, fd: int, data: Seq<u8>, offset: int)
    ensures
        pwrite_spec(s, fd, data, offset).0.fds == s.fds,
{
}

/// Truncate-on-open discards prior content: where an open with
/// `Truncate` of a stored file succeeds, the handle's node starts
/// empty.
pub proof fn lemma_open_trunc_empty(s: BcfsV, p: PtxV, c: Seq<Seq<u8>>, of: OpenFlags, ff: FdFlags)
    requires
        s.wf(),
        is_own_regular(s, c),
        of.trunc,
        open_resolved(s, p, c, of, ff).1 is Ok,
    ensures
        ({
            let (s2, r) = open_resolved(s, p, c, of, ff);
            let fd = r.unwrap() as int;
            s2.node_of(s2.handle(fd)).content == Seq::<u8>::empty()
        }),
{
    let (s2, r) = open_resolved(s, p, c, of, ff);
    let key = key_of(c);
    let afd = first_alive_fd(s, key, 0);
    let free = first_free_from(s.fds, 0);
    lemma_first_free_bounds(s.fds, 0);
    lemma_first_alive_bounds(s, key, 0);
    let fd = r.unwrap() as int;
    if afd < s.fds.len() {
        assert(alive_regular(s, afd, key));
        let idx = s.handle(afd).node;
        assert(0 <= idx < s.files.len());
        let s1 = s.with_node(
            idx,
            NodeV { content: Seq::empty(), dirty: true, ..s.node_of(s.handle(afd)) },
        );
        assert(s2 == alloc_fd(s1, file_handle(idx, 0, ff.append)).0);
        assert(s2.fds[fd] == Some(file_handle(idx, 0, ff.append)));
        assert(s2.node_of(s2.handle(fd)).content =~= Seq::<u8>::empty());
    } else {
        let idx = s.files.len() as int;
        assert(s2.fds[fd] == Some(file_handle(idx, 0, ff.append)));
        assert(s2.node_of(s2.handle(fd)).content =~= Seq::<u8>::empty());
    }
}

/// An append-mode write lands at end-of-content whatever the cursor:
/// the node's content afterwards is exactly the old content followed by
/// the written bytes, and the cursor sits at the new end.
pub proof fn lemma_append_write(s: BcfsV, fd: int, data: Seq<u8>)
    requires
        s.wf(),
        s.fd_ok(fd),
        !s.handle(fd).is_dir,
        s.handle(fd).append,
        s.node_of(s.handle(fd)).kind == NodeKind::Regular || s.node_of(s.handle(fd)).kind
            == NodeKind::Temp || s.node_of(s.handle(fd)).kind == NodeKind::Log,
        s.node_of(s.handle(fd)).content.len() + data.len() <= usize::MAX,
    ensures
        ({
            let (s2, r) = write_spec(s, fd, data);
            &&& r == Ok::<int, ErrNo>(data.len() as int)
            &&& s2.node_of(s2.handle(fd)).content == s.node_of(s.handle(fd)).content + data
            &&& s2.handle(fd).cursor == s2.node_of(s2.handle(fd)).content.len()
        }),
{
    let h = s.handle(fd);
    let n = s.node_of(h);
    let c = n.content;
    let t = c.len() as int;
    assert(write_at(c, t, data) =~= c + data);
    let (s2, r) = write_spec(s, fd, data);
    assert(s2.handle(fd) == file_handle(h.node, t + data.len(), h.append));
    assert(s2.node_of(s2.handle(fd)).content =~= c + data);
}

/// Two handles on one node see each other's writes at once: after a
/// write through `a`, a handle `b` on the same node reads the same new
/// content, while no write ever touches the transaction state.
pub proof fn lemma_alias_visible(s: BcfsV, a: int, b: int, data: Seq<u8>)
    requires
        s.wf(),
        s.fd_ok(a),
        s.fd_ok(b),
        !s.handle(a).is_dir,
        !s.handle(b).is_dir,
        s.handle(a).node == s.handle(b).node,
        write_spec(s, a, data).1 is Ok,
    ensures
        ({
            let (s2, r) = write_spec(s, a, data);
            s2.node_of(s2.handle(b)) == s2.node_of(s2.handle(a))
        }),
{
    let (s2, r) = write_spec(s, a, data);
    if a != b {
        assert(s2.fds[b] == s.fds[b]);
    }
}

/// `renumber(a, b)` makes `b` refer to what `a` referenced, removes
/// `a`, and a read through the old `a` then fails with
/// `BadDescriptor`.
pub proof fn lemma_renumber_moves(s: BcfsV, p: PtxV, a: int, b: int, n: int)
    requires
        s.fd_ok(a),
        s.fd_ok(b),
        a != b,
    ensures
        ({
            let (s2, p2, r) = renumber_spec(s, p, a, b);
            &&& s2.fds[b] == s.fds[a]
            &&& s2.fds[a] is None
            &&& read_spec(s2, p2, a, n).2 == Err::<int, ErrNo>(ErrNo::BadDescriptor)
        }),
{
    let (s1, p1, r1) = flush_spec(s, p, b);
    assert(s1.fds == s.fds);
    let (s2, p2, r) = renumber_spec(s, p, a, b);
    assert(s2.fds[a] is None);
}

/// Opening an account's balance snapshots the balance, little-endian in
/// sixteen bytes, at open time.
pub proof fn lemma_open_balance_snapshot(
    s: BcfsV,
    p: PtxV,
    c: Seq<Seq<u8>>,
    of: OpenFlags,
    ff: FdFlags,
)
    requires
        is_special_pair(p, c),
        c[1] == crate::bcfs::balance_seg(),
        open_resolved(s, p, c, of, ff).1 is Ok,
    ensures
        ({
            let (s2, r) = open_resolved(s, p, c, of, ff);
            let fd = r.unwrap() as int;
            s2.node_of(s2.handle(fd)).content == le_bytes(
                p.state[addr_of_seg(c[0]).unwrap()].balance as nat,
                16,
            )
        }),
{
    lemma_first_free_bounds(s.fds, 0);
    assert(!is_dir_path(p, c) && !is_log_path(c));
}

/// Flushing a log handle whose unflushed bytes are one well-formed
/// entry emits exactly one event: the entry's topics, each padded or
/// cut to thirty-two bytes, and its data, with the callee as emitter.
pub proof fn lemma_log_flush_emits(s: BcfsV, p: PtxV, fd: int, topics: Seq<Seq<u8>>, data: Seq<u8>)
    requires
        s.wf(),
        s.fd_ok(fd),
        !s.handle(fd).is_dir,
        s.node_of(s.handle(fd)).kind == NodeKind::Log,
        ({
            let n = s.node_of(s.handle(fd));
            n.content.subrange(n.flushed, n.content.len() as int) == encode_log(topics, data)
        }),
        topics.len() < pow256(4),
        data.len() < pow256(4),
        forall|i: int| 0 <= i < topics.len() ==> (#[trigger] topics[i]).len() < pow256(4),
    ensures
        ({
            let (s2, p2, r) = flush_spec(s, p, fd);
            &&& r == Ok::<(), ErrNo>(())
            &&& p2.events == p.events.push(
                crate::types::EventV {
                    emitter: p.callee,
                    topics: topics.map_values(|t: Seq<u8>| pad32(t)),
                    data: data,
                },
            )
        }),
{
    let n = s.node_of(s.handle(fd));
    let newb = n.content.subrange(n.flushed, n.content.len() as int);
    crate::codec::lemma_log_round_trip(topics, data);
    crate::codec::lemma_le_bytes_len(topics.len(), 4);
    crate::codec::lemma_le_bytes_len(data.len(), 4);
    assert(newb.len() >= 8);
}

/// A scratch file's flush touches neither the persistent state nor the
/// transaction's output or events.
pub proof fn lemma_tempfile_scratch(s: BcfsV, p: PtxV, fd: int)
    requires
        s.fd_ok(fd),
        !s.handle(fd).is_dir,
        s.node_of(s.handle(fd)).kind == NodeKind::Temp,
    ensures
        flush_spec(s, p, fd).1 == p,
        flush_spec(s, p, fd).2 == Ok::<(), ErrNo>(()),
{
}

} // verus!

use vstd::prelude::*;
use crate::bcfs::{
    lemma_first_alive_all, lemma_wf_node_update, lemma_wf_push_node, lemma_wf_seat, pread_spec,
};

verus! {

/// Opening a resolved path preserves the filesystem's well-formedness.
pub proof fn lemma_open_resolved_wf(s: BcfsV, p: PtxV, c: Seq<Seq<u8>>, of: OpenFlags, ff: FdFlags)
    requires
        s.wf(),
    ensures
        open_resolved(s, p, c, of, ff).0.wf(),
{
    let (s2, r) = open_resolved(s, p, c, of, ff);
    let free = first_free_from(s.fds, 0);
    lemma_first_free_bounds(s.fds, 0);
    if is_dir_path(p, c) {
        if !(of.create || of.excl) && !of.trunc && free <= u32::MAX {
            lemma_wf_seat(s, dir_handle(c));
        }
    } else if is_log_path(c) {
        if !(of.create || of.excl) && !of.trunc && ff.append && free <= u32::MAX {
            let n = NodeV {
                kind: NodeKind::Log,
                content: Seq::empty(),
                dirty: false,
                flushed: 0,
                key: Seq::empty(),
            };
            lemma_wf_push_node(s, n);
            let s1 = BcfsV { files: s.files.push(Some(n)), ..s };
            lemma_wf_seat(s1, file_handle(s.files.len() as int, 0, ff.append));
        }
    } else if is_special_pair(p, c) {
        if !(of.create || of.excl) && !of.trunc && free <= u32::MAX {
            let a = addr_of_seg(c[0]).unwrap();
            let n = if c[1] == balance_seg() {
                NodeV {
                    kind: NodeKind::Balance,
                    content: le_bytes(p.state[a].balance as nat, 16),
                    dirty: false,
                    flushed: 0,
                    key: Seq::empty(),
                }
            } else {
                NodeV {
                    kind: NodeKind::Bytecode,
                    content: p.state[a].code,
                    dirty: false,
                    flushed: 0,
                    key: Seq::empty(),
                }
            };
            crate::codec::lemma_le_bytes_len(p.state[a].balance as nat, 16);
            lemma_wf_push_node(s, n);
            let s1 = BcfsV { files: s.files.push(Some(n)), ..s };
            lemma_wf_seat(s1, file_handle(s.files.len() as int, 0, ff.append));
        }
    } else if is_own_regular(s, c) {
        let key = key_of(c);
        let afd = first_alive_fd(s, key, 0);
        let alive = afd < s.fds.len();
        let stored = p.storage().contains_key(key);
        lemma_first_alive_bounds(s, key, 0);
        if of.excl && (alive || stored) {
        } else if !(alive || stored) && !of.create {
        } else if free > u32::MAX {
        } else {
            if alive {
                assert(alive_regular(s, afd, key));
                let idx = s.handle(afd).node;
                let s1 = if of.trunc {
                    s.with_node(
                        idx,
                        NodeV { content: Seq::empty(), dirty: true, ..s.node_of(s.handle(afd)) },
                    )
                } else {
                    s
                };
                if of.trunc {
                    lemma_wf_node_update(
                        s,
                        afd,
                        NodeV { content: Seq::empty(), dirty: true, ..s.node_of(s.handle(afd)) },
                        s.handle(afd).cursor,
                    );
                }
                let h = file_handle(idx, 0, ff.append);
                assert forall|x: int|
                    #[trigger] alive_regular(s1, x, key) implies s1.fds[x].unwrap().node
                    == idx by {
                    assert(alive_regular(s, x, key));
                    assert(alive_regular(s, afd, key));
                }
                assert(s1.node_of(h).kind == NodeKind::Regular && s1.node_of(h).key == key);
                lemma_wf_seat(s1, h);
            } else {
                let content0 = if stored {
                    p.storage()[key]
                } else {
                    Seq::<u8>::empty()
                };
                let n0 = NodeV {
                    kind: NodeKind::Regular,
                    content: content0,
                    dirty: !stored,
                    flushed: 0,
                    key: key,
                };
                let n1 = if of.trunc {
                    NodeV { content: Seq::<u8>::empty(), dirty: true, ..n0 }
                } else {
                    n0
                };
                lemma_wf_push_node(s, n1);
                lemma_first_alive_none(s, key, 0);
                let s1 = BcfsV { files: s.files.push(Some(n1)), ..s };
                let h = file_handle(s.files.len() as int, 0, ff.append);
                assert forall|x: int|
                    #[trigger] alive_regular(s1, x, key) implies s1.fds[x].unwrap().node
                    == s.files.len() as int by {
                    assert(alive_regular(s, x, key) == alive_regular(s1, x, key));
                    assert(!alive_regular(s, x, key));
                }
                lemma_wf_seat(s1, h);
            }
        }
    }
}

/// Two opens of one canonical stored-file path, however it was spelt,
/// end on the same node: writes through one handle are reads of the
/// other.
pub proof fn lemma_open_aliases(
    s: BcfsV,
    p: PtxV,
    c: Seq<Seq<u8>>,
    of1: OpenFlags,
    ff1: FdFlags,
    of2: OpenFlags,
    ff2: FdFlags,
)
    requires
        s.wf(),
        is_own_regular(s, c),
        open_resolved(s, p, c, of1, ff1).1 is Ok,
        open_resolved(open_resolved(s, p, c, of1, ff1).0, p, c, of2, ff2).1 is Ok,
    ensures
        ({
            let (s1, r1) = open_resolved(s, p, c, of1, ff1);
            let (s2, r2) = open_resolved(s1, p, c, of2, ff2);
            s2.handle(r1.unwrap() as int).node == s2.handle(r2.unwrap() as int).node
        }),
{
    let (s1, r1) = open_resolved(s, p, c, of1, ff1);
    let (s2, r2) = open_resolved(s1, p, c, of2, ff2);
    let fd1 = r1.unwrap() as int;
    let fd2 = r2.unwrap() as int;
    let key = key_of(c);
    lemma_open_resolved_wf(s, p, c, of1, ff1);
    let free1 = first_free_from(s.fds, 0);
    lemma_first_free_bounds(s.fds, 0);
    let afd = first_alive_fd(s, key, 0);
    lemma_first_alive_bounds(s, key, 0);
    // the first open seats fd1 on a node whose kind is Regular and whose
    // key is the path's key
    assert(s1.fds[fd1] is Some && !s1.handle(fd1).is_dir);
    assert(alive_regular(s1, fd1, key));
    assert(s1.home == s.home);
    assert(is_own_regular(s1, c));
    // so the second open finds a live node and shares it
    let afd2 = first_alive_fd(s1, key, 0);
    lemma_first_alive_bounds(s1, key, 0);
    if afd2 == s1.fds.len() {
        crate::bcfs::lemma_first_alive_none(s1, key, 0);
        assert(!alive_regular(s1, fd1, key));
        assert(false);
    }
    assert(alive_regular(s1, afd2, key));
    assert(s1.fds[afd2].unwrap().node == s1.fds[fd1].unwrap().node);
    let free2 = first_free_from(s1.fds, 0);
    lemma_first_free_bounds(s1.fds, 0);
    assert(s1.fds[fd1] is Some);
    assert(free2 != fd1);
    assert(s2.handle(fd2).node == s1.handle(afd2).node);
    assert(s2.fds[fd1] == s1.fds[fd1]);
}

/// Unlinking a stored file removes it: a later open of the same
/// canonical path without `Create` fails with `NotFound`, as long as no
/// handle still holds the file open.
pub proof fn lemma_unlink_then_open(s: BcfsV, p: PtxV, c: Seq<Seq<u8>>, of: OpenFlags, ff: FdFlags)
    requires
        s.wf(),
        is_own_regular(s, c),
        first_alive_fd(s, key_of(c), 0) == s.fds.len(),
        !of.create,
    ensures
        ({
            let p2 = p.kv_remove(key_of(c));
            open_resolved(s, p2, c, of, ff).1 == Err::<u32, ErrNo>(ErrNo::NotFound)
        }),
{
    let key = key_of(c);
    let p2 = p.kv_remove(key);
    assert(!p2.storage().contains_key(key));
}

} // verus!

verus! {

/// The round trip: writing a file's bytes, closing it, and reopening it
/// without `Truncate` reads back exactly the bytes written, for content
/// of any length.
#[verifier::rlimit(100)]
pub proof fn lemma_round_trip(
    s: BcfsV,
    p: PtxV,
    c: Seq<Seq<u8>>,
    of1: OpenFlags,
    ff1: FdFlags,
    of2: OpenFlags,
    ff2: FdFlags,
    data: Seq<u8>,
)
    requires
        s.wf(),
        p.wf(),
        is_own_regular(s, c),
        first_alive_fd(s, key_of(c), 0) == s.fds.len(),
        !ff1.append,
        data.len() <= usize::MAX,
        s.fds.len() + 1 <= u32::MAX,
        open_resolved(s, p, c, of1, ff1).1 is Ok,
        !of2.trunc,
        !of2.excl,
    ensures
        ({
            let (s1, r1) = open_resolved(s, p, c, of1, ff1);
            let fd1 = r1.unwrap() as int;
            let (s2, rw) = write_spec(s1, fd1, data);
            let (s3, p3, rc) = close_spec(s2, p, fd1);
            let (s4, r4) = open_resolved(s3, p3, c, of2, ff2);
            &&& rw == Ok::<int, ErrNo>(data.len() as int)
            &&& rc == Ok::<(), ErrNo>(())
            &&& r4 is Ok
            &&& ({
                let fd2 = r4.unwrap() as int;
                let (avail, rr) = pread_spec(s4, p3, fd2, data.len() as int, 0);
                rr == Ok::<int, ErrNo>(data.len() as int) && avail.subrange(
                    0,
                    data.len() as int,
                ) == data
            })
        }),
{
    let key = key_of(c);
    let (s1, r1) = open_resolved(s, p, c, of1, ff1);
    let fd1 = r1.unwrap() as int;
    let free1 = first_free_from(s.fds, 0);
    lemma_first_free_bounds(s.fds, 0);
    let idx1 = s.files.len() as int;
    // the first open creates a fresh node, since nothing is alive
    let stored0 = p.storage().contains_key(key);
    let content0 = if stored0 {
        p.storage()[key]
    } else {
        Seq::<u8>::empty()
    };
    let n0 = NodeV {
        kind: NodeKind::Regular,
        content: content0,
        dirty: !stored0,
        flushed: 0,
        key: key,
    };
    let n1 = if of1.trunc {
        NodeV { content: Seq::<u8>::empty(), dirty: true, ..n0 }
    } else {
        n0
    };
    assert(fd1 == free1);
    assert(s1.files == s.files.push(Some(n1)));
    assert(s1.fds[fd1] == Some(file_handle(idx1, 0, ff1.append)));
    // the write lands at offset zero
    let (s2, rw) = write_spec(s1, fd1, data);
    let content1 = write_at(n1.content, 0, data);
    assert(content1.subrange(0, data.len() as int) =~= data);
    assert(content1.len() >= data.len());
    assert(rw == Ok::<int, ErrNo>(data.len() as int));
    assert(s2.files == s1.files.update(
        idx1,
        Some(NodeV { content: content1, dirty: true, ..n1 }),
    ));
    assert(s2.fds == s1.fds.update(fd1, Some(file_handle(idx1, data.len() as int, false))));
    // closing flushes the dirty node into storage
    let (s3, p3, rc) = close_spec(s2, p, fd1);
    assert(s2.fd_ok(fd1) && !s2.handle(fd1).is_dir);
    assert(s2.node_of(s2.handle(fd1)).kind == NodeKind::Regular && s2.node_of(
        s2.handle(fd1),
    ).dirty);
    assert(rc == Ok::<(), ErrNo>(()));
    assert(p3 == p.kv_insert(key, content1));
    assert(p3.callee == p.callee);
    assert(p3.storage() == p.state[p.callee].storage.insert(key, content1));
    assert(p3.storage().contains_key(key) && p3.storage()[key] == content1);
    assert(s3.fds == s2.fds.update(fd1, None));
    assert(s3.files == s2.files.update(
        idx1,
        Some(NodeV { content: content1, dirty: false, ..n1 }),
    ));
    assert(s3.home == s.home && is_own_regular(s3, c));
    // after the close, nothing is alive on the key
    crate::bcfs::lemma_first_alive_none(s, key, 0);
    assert forall|x: int| 0 <= x implies !alive_regular(s3, x, key) by {
        if x < s3.fds.len() && x != fd1 {
            if free1 == s.fds.len() {
                if x < s.fds.len() {
                    assert(s3.fds[x] == s.fds[x]);
                }
            } else {
                assert(s3.fds[x] == s.fds[x]);
            }
            if 0 <= x < s.fds.len() && s.fds[x] is Some && !s.fds[x].unwrap().is_dir {
                let hx = s.fds[x].unwrap();
                assert(s.handle_node_ok(hx));
                assert(hx.node < idx1);
                assert(s3.files[hx.node] == s.files[hx.node]);
                assert(!alive_regular(s, x, key));
            }
        }
    }
    assert forall|x: int| true implies !alive_regular(s3, x, key) by {
        if x < 0 {
        }
    }
    lemma_first_alive_all(s3, key, 0);
    // the second open loads the stored bytes into a fresh node
    let (s4, r4) = open_resolved(s3, p3, c, of2, ff2);
    let free2 = first_free_from(s3.fds, 0);
    lemma_first_free_bounds(s3.fds, 0);
    assert(s3.fds.len() == if free1 == s.fds.len() {
        s.fds.len() as int + 1
    } else {
        s.fds.len() as int
    }) by {
        assert(s1.fds.len() == s3.fds.len());
    }
    assert(free2 <= u32::MAX);
    assert(r4 is Ok);
    let fd2 = r4.unwrap() as int;
    let idx2 = s3.files.len() as int;
    let n2 = NodeV { kind: NodeKind::Regular, content: content1, dirty: false, flushed: 0, key: key };
    assert(s4.files == s3.files.push(Some(n2)));
    assert(fd2 == free2);
    assert(s4.fds[fd2] == Some(file_handle(idx2, 0, ff2.append)));
    // reading from offset zero returns the written bytes
    let (avail, rr) = pread_spec(s4, p3, fd2, data.len() as int, 0);
    assert(s4.node_of(s4.handle(fd2)) == n2);
    assert(avail =~= content1.subrange(0, content1.len() as int));
    assert(avail =~= content1);
    assert(rr == Ok::<int, ErrNo>(data.len() as int));
    assert(avail.subrange(0, data.len() as int) == data);
}

} // verus!
