//! The descriptor layer itself: a table of open handles over shared
//! file nodes, resolved against the transaction's account state.

use vstd::prelude::*;

use crate::file::{ErrNo, FdFlags, FdStat, FileStat, FileType, OpenFlags, Whence};
use crate::state::{PendingTransaction, PtxV};

verus! {

/// What a file node is backed by.
#[derive(Clone, Copy, Debug, PartialEq, Eq, Structural)]
pub enum NodeKind {
    /// A file stored under a key of the account's key/value map.
    Regular,
    /// A snapshot of an account's balance, taken at open time.
    Balance,
    /// A snapshot of an account's code, taken at open time.
    Bytecode,
    /// The append-only event log.
    Log,
    /// The transaction's input stream.
    Stdin,
    /// The transaction's output stream.
    Stdout,
    /// The transaction's error stream.
    Stderr,
    /// An anonymous scratch file.
    Temp,
}

/// One open file's shared state: all handles on the same node see the
/// same content buffer.
pub struct FileNode {
    pub kind: NodeKind,
    pub content: Vec<u8>,
    pub dirty: bool,
    pub flushed: usize,
    pub key: Vec<u8>,
}

/// The mathematical shape of a file node.
#[verifier::ext_equal]
pub ghost struct NodeV {
    pub kind: NodeKind,
    pub content: Seq<u8>,
    pub dirty: bool,
    pub flushed: int,
    pub key: Seq<u8>,
}

impl View for FileNode {
    type V = NodeV;

    open spec fn view(&self) -> NodeV {
        NodeV {
            kind: self.kind,
            content: self.content@,
            dirty: self.dirty,
            flushed: self.flushed as int,
            key: self.key@,
        }
    }
}

/// One entry of the descriptor table: a directory handle with its
/// canonical prefix, or a file handle with its node and cursor.
pub struct OpenHandle {
    pub is_dir: bool,
    pub prefix: Vec<Vec<u8>>,
    pub node: usize,
    pub cursor: u64,
    pub append: bool,
}

/// The mathematical shape of a table entry.
#[verifier::ext_equal]
pub ghost struct HandleV {
    pub is_dir: bool,
    pub prefix: Seq<Seq<u8>>,
    pub node: int,
    pub cursor: int,
    pub append: bool,
}

impl View for OpenHandle {
    type V = HandleV;

    open spec fn view(&self) -> HandleV {
        HandleV {
            is_dir: self.is_dir,
            prefix: self.prefix.deep_view(),
            node: self.node as int,
            cursor: self.cursor as int,
            append: self.append,
        }
    }
}

/// A file handle on `node`.
pub open spec fn file_handle(node: int, cursor: int, append: bool) -> HandleV {
    HandleV { is_dir: false, prefix: Seq::empty(), node, cursor, append }
}

/// A directory handle on the canonical `prefix`.
pub open spec fn dir_handle(prefix: Seq<Seq<u8>>) -> HandleV {
    HandleV { is_dir: true, prefix, node: 0, cursor: 0, append: false }
}

/// The mathematical shape of the whole filesystem instance.
#[verifier::ext_equal]
pub ghost struct BcfsV {
    pub files: Seq<Option<NodeV>>,
    pub fds: Seq<Option<HandleV>>,
    pub home: Seq<u8>,
    pub chain: Seq<u8>,
}

impl BcfsV {
    /// `fd` names an open handle.
    pub open spec fn fd_ok(self, fd: int) -> bool {
        0 <= fd < self.fds.len() && self.fds[fd] is Some
    }

    /// The handle at `fd`.
    pub open spec fn handle(self, fd: int) -> HandleV {
        self.fds[fd].unwrap()
    }

    /// The node behind a file handle.
    pub open spec fn node_of(self, h: HandleV) -> NodeV {
        self.files[h.node].unwrap()
    }

    /// A file handle's node index is in range and alive.
    pub open spec fn handle_node_ok(self, h: HandleV) -> bool {
        !h.is_dir ==> 0 <= h.node < self.files.len() && self.files[h.node] is Some
    }

    /// `fd` names an open file (not directory) handle.
    pub open spec fn file_fd_ok(self, fd: int) -> bool {
        self.fd_ok(fd) && !self.handle(fd).is_dir
    }

    /// The state with the handle at `fd` replaced.
    pub open spec fn with_handle(self, fd: int, h: HandleV) -> BcfsV {
        BcfsV { fds: self.fds.update(fd, Some(h)), ..self }
    }

    /// The state with the handle at `fd` removed.
    pub open spec fn without_handle(self, fd: int) -> BcfsV {
        BcfsV { fds: self.fds.update(fd, None), ..self }
    }

    /// The state with the node at `i` replaced.
    pub open spec fn with_node(self, i: int, n: NodeV) -> BcfsV {
        BcfsV { files: self.files.update(i, Some(n)), ..self }
    }

    /// Every handle points at a live node, flush marks never pass the
    /// content length, and all live handles on one stored file share one
    /// node.
    pub open spec fn wf(self) -> bool {
        &&& forall|fd: int|
            0 <= fd < self.fds.len() && self.fds[fd] is Some ==> self.handle_node_ok(
                (#[trigger] self.fds[fd]).unwrap(),
            )
        &&& forall|i: int|
            0 <= i < self.files.len() && self.files[i] is Some ==> {
                let n = (#[trigger] self.files[i]).unwrap();
                0 <= n.flushed <= n.content.len() && (n.kind == NodeKind::Regular ==> n.flushed
                    == 0)
            }
        &&& forall|a: int, b: int|
            #![trigger self.fds[a], self.fds[b]]
            {
                (0 <= a < self.fds.len() && 0 <= b < self.fds.len() && self.fds[a] is Some
                    && self.fds[b] is Some && !self.fds[a].unwrap().is_dir
                    && !self.fds[b].unwrap().is_dir && self.node_of(self.fds[a].unwrap()).kind
                    == NodeKind::Regular && self.node_of(self.fds[b].unwrap()).kind
                    == NodeKind::Regular && self.node_of(self.fds[a].unwrap()).key == self.node_of(
                    self.fds[b].unwrap(),
                ).key) ==> self.fds[a].unwrap().node == self.fds[b].unwrap().node
            }
    }

    /// The length of what a handle reads: the transaction input for the
    /// input stream, the node's content otherwise.
    pub open spec fn src_len(self, p: PtxV, h: HandleV) -> int {
        if self.node_of(h).kind == NodeKind::Stdin {
            p.input.len() as int
        } else {
            self.node_of(h).content.len() as int
        }
    }
}

/// Whether a node of this kind can be read.
pub open spec fn readable(k: NodeKind) -> bool {
    k == NodeKind::Regular || k == NodeKind::Balance || k == NodeKind::Bytecode || k
        == NodeKind::Stdin || k == NodeKind::Temp
}

/// Content after writing `d` at offset `t`: any gap up to `t` is
/// zero-filled, bytes under the write are replaced, bytes past it stay.
pub open spec fn write_at(c: Seq<u8>, t: int, d: Seq<u8>) -> Seq<u8> {
    let padded = if t > c.len() {
        c + Seq::new((t - c.len()) as nat, |i: int| 0u8)
    } else {
        c
    };
    if t + d.len() >= padded.len() {
        padded.subrange(0, t) + d
    } else {
        padded.subrange(0, t) + d + padded.subrange(t + d.len(), padded.len() as int)
    }
}

/// The sum of the lengths of a buffer list.
pub open spec fn sum_lens(bufs: Seq<Seq<u8>>) -> int
    decreases bufs.len(),
{
    if bufs.len() == 0 {
        0
    } else {
        bufs[0].len() + sum_lens(bufs.subrange(1, bufs.len() as int))
    }
}

/// The buffers after a vectored read delivers `bytes` into them, in
/// order: each buffer takes what it can hold, and keeps its old suffix
/// where the bytes run out.
pub open spec fn fill_bufs(bufs: Seq<Seq<u8>>, bytes: Seq<u8>) -> Seq<Seq<u8>>
    decreases bufs.len(),
{
    if bufs.len() == 0 {
        bufs
    } else {
        let b0 = bufs[0];
        let take = if b0.len() <= bytes.len() {
            b0.len() as int
        } else {
            bytes.len() as int
        };
        seq![bytes.subrange(0, take) + b0.subrange(take, b0.len() as int)] + fill_bufs(
            bufs.subrange(1, bufs.len() as int),
            bytes.subrange(take, bytes.len() as int),
        )
    }
}

/// What a vectored read yields: the bytes available past the cursor,
/// and how many of them a request for `n` bytes takes; the cursor
/// advances by that count.
pub open spec fn read_spec(s: BcfsV, p: PtxV, fd: int, n: int) -> (BcfsV, Seq<u8>, Result<
    int,
    ErrNo,
>) {
    if !s.fd_ok(fd) {
        (s, Seq::empty(), Err(ErrNo::BadDescriptor))
    } else {
        let h = s.handle(fd);
        if h.is_dir {
            (s, Seq::empty(), Err(ErrNo::InvalidArgument))
        } else if !readable(s.node_of(h).kind) {
            (s, Seq::empty(), Err(ErrNo::InvalidArgument))
        } else {
            let src = if s.node_of(h).kind == NodeKind::Stdin {
                p.input
            } else {
                s.node_of(h).content
            };
            let start = if h.cursor > src.len() {
                src.len() as int
            } else {
                h.cursor
            };
            let avail = src.subrange(start, src.len() as int);
            let take = if n <= avail.len() {
                n
            } else {
                avail.len() as int
            };
            (
                s.with_handle(fd, file_handle(h.node, start + take, h.append)),
                avail,
                Ok(take),
            )
        }
    }
}

/// What a positional read yields: as a read at `offset`, with the
/// cursor left alone.
pub open spec fn pread_spec(s: BcfsV, p: PtxV, fd: int, n: int, offset: int) -> (Seq<u8>, Result<
    int,
    ErrNo,
>) {
    if !s.fd_ok(fd) {
        (Seq::empty(), Err(ErrNo::BadDescriptor))
    } else {
        let h = s.handle(fd);
        if h.is_dir {
            (Seq::empty(), Err(ErrNo::InvalidArgument))
        } else if !readable(s.node_of(h).kind) {
            (Seq::empty(), Err(ErrNo::InvalidArgument))
        } else {
            let src = if s.node_of(h).kind == NodeKind::Stdin {
                p.input
            } else {
                s.node_of(h).content
            };
            let start = if offset > src.len() {
                src.len() as int
            } else {
                offset
            };
            let avail = src.subrange(start, src.len() as int);
            let take = if n <= avail.len() {
                n
            } else {
                avail.len() as int
            };
            (avail, Ok(take))
        }
    }
}

/// What writing `data` through `fd` does: the write lands at the cursor,
/// or at end-of-content for an append handle, and the cursor moves past
/// the written bytes.
pub open spec fn write_spec(s: BcfsV, fd: int, data: Seq<u8>) -> (BcfsV, Result<int, ErrNo>) {
    if !s.fd_ok(fd) {
        (s, Err(ErrNo::BadDescriptor))
    } else {
        let h = s.handle(fd);
        if h.is_dir {
            (s, Err(ErrNo::InvalidArgument))
        } else {
            let node = s.node_of(h);
            if node.kind == NodeKind::Stdin {
                (s, Err(ErrNo::InvalidArgument))
            } else if node.kind == NodeKind::Balance || node.kind == NodeKind::Bytecode {
                (s, Err(ErrNo::AccessDenied))
            } else {
                let t = if h.append {
                    node.content.len() as int
                } else {
                    h.cursor
                };
                if t + data.len() > usize::MAX {
                    (s, Err(ErrNo::InvalidArgument))
                } else {
                    let n2 = NodeV { content: write_at(node.content, t, data), dirty: true, ..node };
                    (
                        s.with_node(h.node, n2).with_handle(
                            fd,
                            file_handle(h.node, t + data.len(), h.append),
                        ),
                        Ok(data.len() as int),
                    )
                }
            }
        }
    }
}

/// What a positional write does: as a write at `offset` (end-of-content
/// for an append handle), with the cursor left alone.
pub open spec fn pwrite_spec(s: BcfsV, fd: int, data: Seq<u8>, offset: int) -> (BcfsV, Result<
    int,
    ErrNo,
>) {
    if !s.fd_ok(fd) {
        (s, Err(ErrNo::BadDescriptor))
    } else {
        let h = s.handle(fd);
        if h.is_dir {
            (s, Err(ErrNo::InvalidArgument))
        } else {
            let node = s.node_of(h);
            if node.kind == NodeKind::Stdin {
                (s, Err(ErrNo::InvalidArgument))
            } else if node.kind == NodeKind::Balance || node.kind == NodeKind::Bytecode {
                (s, Err(ErrNo::AccessDenied))
            } else {
                let t = if h.append {
                    node.content.len() as int
                } else {
                    offset
                };
                if t + data.len() > usize::MAX {
                    (s, Err(ErrNo::InvalidArgument))
                } else {
                    let n2 = NodeV { content: write_at(node.content, t, data), dirty: true, ..node };
                    (s.with_node(h.node, n2), Ok(data.len() as int))
                }
            }
        }
    }
}

/// The path segment naming the event log.
pub open spec fn log_seg() -> Seq<u8> {
    seq![108u8, 111u8, 103u8]
}

/// The path segment naming an account's balance.
pub open spec fn balance_seg() -> Seq<u8> {
    seq![98u8, 97u8, 108u8, 97u8, 110u8, 99u8, 101u8]
}

/// The path segment naming an account's code.
pub open spec fn bytecode_seg() -> Seq<u8> {
    seq![98u8, 121u8, 116u8, 101u8, 99u8, 111u8, 100u8, 101u8]
}

/// The address bytes a segment names, where it is forty hex digits.
pub open spec fn addr_of_seg(seg: Seq<u8>) -> Option<Seq<u8>> {
    match crate::codec::hex_parse(seg) {
        Some(a) => if a.len() == 20 {
            Some(a)
        } else {
            None
        },
        None => None,
    }
}

/// Whether a segment names an existing account.
pub open spec fn is_account_seg(p: PtxV, seg: Seq<u8>) -> bool {
    match addr_of_seg(seg) {
        Some(a) => p.state.contains_key(a),
        None => false,
    }
}

/// Segments joined with `/` into a storage key.
pub open spec fn join_segs(segs: Seq<Seq<u8>>) -> Seq<u8>
    decreases segs.len(),
{
    if segs.len() == 0 {
        Seq::empty()
    } else if segs.len() == 1 {
        segs[0]
    } else {
        segs[0] + seq![47u8] + join_segs(segs.subrange(1, segs.len() as int))
    }
}

/// `fd` is an open file handle on a live stored-file node keyed `key`.
pub open spec fn alive_regular(s: BcfsV, fd: int, key: Seq<u8>) -> bool {
    s.fd_ok(fd) && !s.handle(fd).is_dir && s.node_of(s.handle(fd)).kind == NodeKind::Regular
        && s.node_of(s.handle(fd)).key == key
}

/// The least descriptor at or after `i` whose handle works on the
/// stored file keyed `key`; the table length where there is none.
pub open spec fn first_alive_fd(s: BcfsV, key: Seq<u8>, i: int) -> int
    decreases s.fds.len() - i,
{
    if i < 0 || i >= s.fds.len() {
        s.fds.len() as int
    } else if alive_regular(s, i, key) {
        i
    } else {
        first_alive_fd(s, key, i + 1)
    }
}

/// The least free descriptor number at or after `i`.
pub open spec fn first_free_from(fds: Seq<Option<HandleV>>, i: int) -> int
    decreases fds.len() - i,
{
    if i < 0 || i >= fds.len() {
        fds.len() as int
    } else if fds[i] is None {
        i
    } else {
        first_free_from(fds, i + 1)
    }
}

/// The state after seating `h` at the least free descriptor.
pub open spec fn alloc_fd(s: BcfsV, h: HandleV) -> (BcfsV, int) {
    let fd = first_free_from(s.fds, 0);
    if fd == s.fds.len() {
        (BcfsV { fds: s.fds.push(Some(h)), ..s }, fd)
    } else {
        (s.with_handle(fd, h), fd)
    }
}

/// The state after adding a fresh node and seating a handle on it.
pub open spec fn alloc_node_fd(s: BcfsV, n: NodeV, append: bool) -> (BcfsV, int) {
    let idx = s.files.len() as int;
    let s1 = BcfsV { files: s.files.push(Some(n)), ..s };
    alloc_fd(s1, file_handle(idx, 0, append))
}

/// `c` names a directory: the chain root, or an existing account's home.
pub open spec fn is_dir_path(p: PtxV, c: Seq<Seq<u8>>) -> bool {
    c.len() == 0 || (c.len() == 1 && c[0] != log_seg() && is_account_seg(p, c[0]))
}

/// `c` names the event log.
pub open spec fn is_log_path(c: Seq<Seq<u8>>) -> bool {
    c.len() == 1 && c[0] == log_seg()
}

/// `c` names an existing account's balance or code snapshot.
pub open spec fn is_special_pair(p: PtxV, c: Seq<Seq<u8>>) -> bool {
    c.len() == 2 && (c[1] == balance_seg() || c[1] == bytecode_seg()) && is_account_seg(p, c[0])
}

/// `c` names a stored file under the caller's own home.
pub open spec fn is_own_regular(s: BcfsV, c: Seq<Seq<u8>>) -> bool {
    c.len() >= 2 && c[0] == s.home && !(c.len() == 2 && (c[1] == balance_seg() || c[1]
        == bytecode_seg()))
}

/// The storage key a canonical path under the home maps to.
pub open spec fn key_of(c: Seq<Seq<u8>>) -> Seq<u8> {
    join_segs(c.subrange(1, c.len() as int))
}

/// What opening a resolved canonical path does.
pub open spec fn open_resolved(s: BcfsV, p: PtxV, c: Seq<Seq<u8>>, of: OpenFlags, ff: FdFlags)
    -> (BcfsV, Result<u32, ErrNo>) {
    if is_dir_path(p, c) {
        if of.create || of.excl {
            (s, Err(ErrNo::AlreadyExists))
        } else if of.trunc {
            (s, Err(ErrNo::InvalidArgument))
        } else {
            let fd = first_free_from(s.fds, 0);
            if fd > u32::MAX {
                (s, Err(ErrNo::InvalidArgument))
            } else {
                (alloc_fd(s, dir_handle(c)).0, Ok(fd as u32))
            }
        }
    } else if is_log_path(c) {
        if of.create || of.excl {
            (s, Err(ErrNo::AlreadyExists))
        } else if of.trunc {
            (s, Err(ErrNo::InvalidArgument))
        } else if !ff.append {
            (s, Err(ErrNo::InvalidArgument))
        } else {
            let fd = first_free_from(s.fds, 0);
            if fd > u32::MAX {
                (s, Err(ErrNo::InvalidArgument))
            } else {
                let n = NodeV {
                    kind: NodeKind::Log,
                    content: Seq::empty(),
                    dirty: false,
                    flushed: 0,
                    key: Seq::empty(),
                };
                (alloc_node_fd(s, n, ff.append).0, Ok(fd as u32))
            }
        }
    } else if is_special_pair(p, c) {
        if of.create || of.excl {
            (s, Err(ErrNo::AlreadyExists))
        } else if of.trunc {
            (s, Err(ErrNo::InvalidArgument))
        } else {
            let fd = first_free_from(s.fds, 0);
            if fd > u32::MAX {
                (s, Err(ErrNo::InvalidArgument))
            } else {
                let a = addr_of_seg(c[0]).unwrap();
                let n = if c[1] == balance_seg() {
                    NodeV {
                        kind: NodeKind::Balance,
                        content: crate::codec::le_bytes(p.state[a].balance as nat, 16),
                        dirty: false,
                        flushed: 0,
                        key: Seq::empty(),
                    }
                } else {
                    NodeV {
                        kind: NodeKind::Bytecode,
                        content: p.state[a].code,
                        dirty: false,
                        flushed: 0,
                        key: Seq::empty(),
                    }
                };
                (alloc_node_fd(s, n, ff.append).0, Ok(fd as u32))
            }
        }
    } else if is_own_regular(s, c) {
        let key = key_of(c);
        let afd = first_alive_fd(s, key, 0);
        let alive = afd < s.fds.len();
        let stored = p.storage().contains_key(key);
        if of.excl && (alive || stored) {
            (s, Err(ErrNo::AlreadyExists))
        } else if !(alive || stored) && !of.create {
            (s, Err(ErrNo::NotFound))
        } else {
            let fd = first_free_from(s.fds, 0);
            if fd > u32::MAX {
                (s, Err(ErrNo::InvalidArgument))
            } else {
                if alive {
                    let idx = s.handle(afd).node;
                    let s1 = if of.trunc {
                        s.with_node(
                            idx,
                            NodeV {
                                content: Seq::empty(),
                                dirty: true,
                                ..s.node_of(s.handle(afd))
                            },
                        )
                    } else {
                        s
                    };
                    (alloc_fd(s1, file_handle(idx, 0, ff.append)).0, Ok(fd as u32))
                } else {
                    let content0 = if stored {
                        p.storage()[key]
                    } else {
                        Seq::empty()
                    };
                    let n0 = NodeV {
                        kind: NodeKind::Regular,
                        content: content0,
                        dirty: !stored,
                        flushed: 0,
                        key: key,
                    };
                    let n1 = if of.trunc {
                        NodeV { content: Seq::empty(), dirty: true, ..n0 }
                    } else {
                        n0
                    };
                    (alloc_node_fd(s, n1, ff.append).0, Ok(fd as u32))
                }
            }
        }
    } else {
        (s, Err(ErrNo::NotFound))
    }
}

/// What `open` does: resolve, then open the resolved path.
pub open spec fn open_spec(
    s: BcfsV,
    p: PtxV,
    base_fd: int,
    path: Seq<u8>,
    of: OpenFlags,
    ff: FdFlags,
) -> (BcfsV, Result<u32, ErrNo>) {
    if !s.fd_ok(base_fd) || !s.handle(base_fd).is_dir {
        (s, Err(ErrNo::BadDescriptor))
    } else if path.len() == 0 {
        (s, Err(ErrNo::InvalidArgument))
    } else {
        let base = if path[0] == 47 {
            Seq::empty()
        } else {
            s.handle(base_fd).prefix
        };
        match crate::path::canon_from(base, crate::path::split_segs(path)) {
            None => (s, Err(ErrNo::NotFound)),
            Some(c) => open_resolved(s, p, c, of, ff),
        }
    }
}

/// What `flush` does: a dirty stored file goes back to the account's
/// key/value map; the output streams hand their unflushed bytes to the
/// transaction output; the log packages its unflushed bytes into one
/// structured entry and emits it as an event; everything else is a
/// no-op.
pub open spec fn flush_spec(s: BcfsV, p: PtxV, fd: int) -> (BcfsV, PtxV, Result<(), ErrNo>) {
    if !s.fd_ok(fd) {
        (s, p, Err(ErrNo::BadDescriptor))
    } else {
        let h = s.handle(fd);
        if h.is_dir {
            (s, p, Ok(()))
        } else {
            let n = s.node_of(h);
            if n.kind == NodeKind::Regular {
                if n.dirty {
                    (
                        s.with_node(h.node, NodeV { dirty: false, ..n }),
                        p.kv_insert(n.key, n.content),
                        Ok(()),
                    )
                } else {
                    (s, p, Ok(()))
                }
            } else if n.kind == NodeKind::Stdout || n.kind == NodeKind::Stderr {
                let newb = n.content.subrange(n.flushed, n.content.len() as int);
                (
                    s.with_node(h.node, NodeV { flushed: n.content.len() as int, ..n }),
                    p.append_output(newb),
                    Ok(()),
                )
            } else if n.kind == NodeKind::Log {
                let newb = n.content.subrange(n.flushed, n.content.len() as int);
                if newb.len() == 0 {
                    (s, p, Ok(()))
                } else {
                    match crate::codec::parse_log(newb) {
                        Some(td) => (
                            s.with_node(h.node, NodeV { flushed: n.content.len() as int, ..n }),
                            p.emit_event(td.0, td.1),
                            Ok(()),
                        ),
                        None => (s, p, Err(ErrNo::InvalidArgument)),
                    }
                }
            } else {
                (s, p, Ok(()))
            }
        }
    }
}

/// What `close` does: flush, then remove the handle whatever the flush
/// said.
pub open spec fn close_spec(s: BcfsV, p: PtxV, fd: int) -> (BcfsV, PtxV, Result<(), ErrNo>) {
    if !s.fd_ok(fd) {
        (s, p, Err(ErrNo::BadDescriptor))
    } else {
        let (s1, p1, r) = flush_spec(s, p, fd);
        (s1.without_handle(fd), p1, r)
    }
}

/// What `renumber` does: `to` is implicitly closed (flushed), then
/// takes over `from`'s handle, and `from` is removed.
pub open spec fn renumber_spec(s: BcfsV, p: PtxV, from: int, to: int) -> (BcfsV, PtxV, Result<
    (),
    ErrNo,
>) {
    if !s.fd_ok(from) || !s.fd_ok(to) {
        (s, p, Err(ErrNo::BadDescriptor))
    } else if from == to {
        (s, p, Ok(()))
    } else {
        let (s1, p1, r) = flush_spec(s, p, to);
        (BcfsV { fds: s1.fds.update(to, s1.fds[from]).update(from, None), ..s1 }, p1, r)
    }
}

/// What `tempfile` does: a fresh anonymous scratch node with a handle
/// at the least free descriptor.
pub open spec fn tempfile_spec(s: BcfsV) -> (BcfsV, Result<u32, ErrNo>) {
    let fd = first_free_from(s.fds, 0);
    if fd > u32::MAX {
        (s, Err(ErrNo::InvalidArgument))
    } else {
        let n = NodeV {
            kind: NodeKind::Temp,
            content: Seq::empty(),
            dirty: false,
            flushed: 0,
            key: Seq::empty(),
        };
        (alloc_node_fd(s, n, false).0, Ok(fd as u32))
    }
}

/// What `unlink` does: a stored file leaves the account's key/value
/// map and its byte length is returned; directories and the synthetic
/// files cannot be unlinked.
pub open spec fn unlink_spec(s: BcfsV, p: PtxV, base_fd: int, path: Seq<u8>) -> (PtxV, Result<
    u64,
    ErrNo,
>) {
    if !s.fd_ok(base_fd) || !s.handle(base_fd).is_dir {
        (p, Err(ErrNo::BadDescriptor))
    } else if path.len() == 0 {
        (p, Err(ErrNo::InvalidArgument))
    } else {
        let base = if path[0] == 47 {
            Seq::empty()
        } else {
            s.handle(base_fd).prefix
        };
        match crate::path::canon_from(base, crate::path::split_segs(path)) {
            None => (p, Err(ErrNo::NotFound)),
            Some(c) => {
                if is_dir_path(p, c) || is_log_path(c) || is_special_pair(p, c) {
                    (p, Err(ErrNo::AccessDenied))
                } else if is_own_regular(s, c) {
                    let key = key_of(c);
                    if p.storage().contains_key(key) {
                        (p.kv_remove(key), Ok(p.storage()[key].len() as u64))
                    } else {
                        (p, Err(ErrNo::NotFound))
                    }
                } else {
                    (p, Err(ErrNo::NotFound))
                }
            },
        }
    }
}

/// The outcome of a seek: where the cursor lands.
pub open spec fn seek_spec(s: BcfsV, p: PtxV, fd: int, offset: int, whence: Whence) -> (BcfsV,
    Result<u64, ErrNo>) {
    if !s.fd_ok(fd) {
        (s, Err(ErrNo::BadDescriptor))
    } else {
        let h = s.handle(fd);
        if h.is_dir {
            (s, Err(ErrNo::InvalidArgument))
        } else {
            let base = match whence {
                Whence::Start => 0,
                Whence::Current => h.cursor,
                Whence::End => s.src_len(p, h),
            };
            let nc = base + offset;
            if nc < 0 || nc > u64::MAX {
                (s, Err(ErrNo::InvalidArgument))
            } else {
                (s.with_handle(fd, file_handle(h.node, nc, h.append)), Ok(nc as u64))
            }
        }
    }
}

/// The outcome of `tell`: the cursor, unchanged.
pub open spec fn tell_spec(s: BcfsV, fd: int) -> Result<u64, ErrNo> {
    if !s.fd_ok(fd) {
        Err(ErrNo::BadDescriptor)
    } else if s.handle(fd).is_dir {
        Err(ErrNo::InvalidArgument)
    } else {
        Ok(s.handle(fd).cursor as u64)
    }
}

/// What `fdstat` reports.
pub open spec fn fdstat_spec(s: BcfsV, fd: int) -> Result<FdStat, ErrNo> {
    if !s.fd_ok(fd) {
        Err(ErrNo::BadDescriptor)
    } else if s.handle(fd).is_dir {
        Ok(FdStat { file_type: FileType::Directory, flags: FdFlags { append: false } })
    } else {
        Ok(
            FdStat {
                file_type: FileType::RegularFile,
                flags: FdFlags { append: s.handle(fd).append },
            },
        )
    }
}

/// What `filestat` reports.
pub open spec fn filestat_spec(s: BcfsV, p: PtxV, fd: int) -> Result<FileStat, ErrNo> {
    if !s.fd_ok(fd) {
        Err(ErrNo::BadDescriptor)
    } else if s.handle(fd).is_dir {
        Ok(FileStat { file_type: FileType::Directory, file_size: 0 })
    } else {
        Ok(
            FileStat {
                file_type: FileType::RegularFile,
                file_size: s.src_len(p, s.handle(fd)) as u64,
            },
        )
    }
}

/// What `prestat` reports: the mount path of a preopened directory.
pub open spec fn prestat_spec(s: BcfsV, fd: int) -> Result<Seq<u8>, ErrNo> {
    if fd == crate::file::CHAIN_DIR_FILENO {
        Ok(seq![47u8, 111u8, 112u8, 116u8, 47u8] + s.chain)
    } else if fd == crate::file::HOME_DIR_FILENO {
        Ok(seq![46u8])
    } else {
        Err(ErrNo::BadDescriptor)
    }
}

/// The view a fresh instance has: the three standard streams, the chain
/// directory and the home directory, and nothing else.
pub open spec fn initial_bcfs(home: Seq<u8>, chain: Seq<u8>) -> BcfsV {
    BcfsV {
        files: seq![
            Some(NodeV { kind: NodeKind::Stdin, content: Seq::empty(), dirty: false, flushed: 0, key: Seq::empty() }),
            Some(NodeV { kind: NodeKind::Stdout, content: Seq::empty(), dirty: false, flushed: 0, key: Seq::empty() }),
            Some(NodeV { kind: NodeKind::Stderr, content: Seq::empty(), dirty: false, flushed: 0, key: Seq::empty() }),
        ],
        fds: seq![
            Some(file_handle(0, 0, false)),
            Some(file_handle(1, 0, true)),
            Some(file_handle(2, 0, true)),
            Some(dir_handle(Seq::empty())),
            Some(dir_handle(seq![home])),
        ],
        home: home,
        chain: chain,
    }
}

/// The filesystem layer: a descriptor table over shared file nodes,
/// scoped to one transaction.
pub struct BCFS {
    files: Vec<Option<FileNode>>,
    fds: Vec<Option<OpenHandle>>,
    home: Vec<u8>,
    chain: Vec<u8>,
}

spec fn opt_node_view(o: Option<FileNode>) -> Option<NodeV> {
    match o {
        Some(n) => Some(n@),
        None => None,
    }
}

spec fn opt_handle_view(o: Option<OpenHandle>) -> Option<HandleV> {
    match o {
        Some(h) => Some(h@),
        None => None,
    }
}

impl View for BCFS {
    type V = BcfsV;

    closed spec fn view(&self) -> BcfsV {
        BcfsV {
            files: Seq::new(self.files@.len(), |i: int| opt_node_view(self.files@[i])),
            fds: Seq::new(self.fds@.len(), |i: int| opt_handle_view(self.fds@[i])),
            home: self.home@,
            chain: self.chain@,
        }
    }
}

/// An empty, non-directory handle template on `node`.
fn mk_file_handle(node: usize, cursor: u64, append: bool) -> (r: OpenHandle)
    ensures
        r@ == file_handle(node as int, cursor as int, append),
{
    let r = OpenHandle { is_dir: false, prefix: Vec::new(), node, cursor, append };
    proof {
        assert(r@ =~= file_handle(node as int, cursor as int, append));
    }
    r
}

/// A stream node with no backing key.
fn mk_stream_node(kind: NodeKind) -> (r: FileNode)
    ensures
        r@ == (NodeV {
            kind,
            content: Seq::<u8>::empty(),
            dirty: false,
            flushed: 0,
            key: Seq::<u8>::empty(),
        }),
{
    let r = FileNode { kind, content: Vec::new(), dirty: false, flushed: 0, key: Vec::new() };
    proof {
        assert(r@ =~= (NodeV {
            kind,
            content: Seq::<u8>::empty(),
            dirty: false,
            flushed: 0,
            key: Seq::<u8>::empty(),
        }));
    }
    r
}

impl BCFS {
    /// A fresh instance for the account whose address is `addr`, on the
    /// chain named `chain_name`: exactly the reserved descriptors are
    /// open.
    pub fn new(addr: &crate::types::Address, chain_name: &[u8]) -> (r: BCFS)
        ensures
            r@ == initial_bcfs(crate::codec::hex_of(addr@), chain_name@),
            r@.wf(),
    {
        let home = crate::codec::hex_encode(vstd::array::array_as_slice(&addr.0));
        let chain = crate::codec::copy_range(chain_name, 0, chain_name.len());
        let mut files: Vec<Option<FileNode>> = Vec::new();
        files.push(Some(mk_stream_node(NodeKind::Stdin)));
        files.push(Some(mk_stream_node(NodeKind::Stdout)));
        files.push(Some(mk_stream_node(NodeKind::Stderr)));
        let mut fds: Vec<Option<OpenHandle>> = Vec::new();
        fds.push(Some(mk_file_handle(0, 0, false)));
        fds.push(Some(mk_file_handle(1, 0, true)));
        fds.push(Some(mk_file_handle(2, 0, true)));
        fds.push(
            Some(OpenHandle { is_dir: true, prefix: Vec::new(), node: 0, cursor: 0, append: false }),
        );
        let mut home_prefix: Vec<Vec<u8>> = Vec::new();
        home_prefix.push(crate::codec::copy_range(home.as_slice(), 0, home.len()));
        fds.push(
            Some(
                OpenHandle {
                    is_dir: true,
                    prefix: home_prefix,
                    node: 0,
                    cursor: 0,
                    append: false,
                },
            ),
        );
        let r = BCFS { files, fds, home, chain };
        proof {
            assert(addr.0@ =~= addr@);
            assert(chain_name@.subrange(0, chain_name@.len() as int) =~= chain_name@);
            assert(r.fds@[4].unwrap().prefix.deep_view() =~~= seq![crate::codec::hex_of(addr@)]);
            assert(r@ =~~= initial_bcfs(crate::codec::hex_of(addr@), chain_name@));
            assert(r@.wf());
        }
        r
    }

    /// The cursor of the open file at `fd`.
    pub fn tell(&self, px: &PendingTransaction, fd: u32) -> (r: Result<u64, ErrNo>)
        ensures
            r == tell_spec(self@, fd as int),
    {
        let idx = fd as usize;
        if idx >= self.fds.len() {
            return Err(ErrNo::BadDescriptor);
        }
        match &self.fds[idx] {
            None => Err(ErrNo::BadDescriptor),
            Some(h) => {
                if h.is_dir {
                    Err(ErrNo::InvalidArgument)
                } else {
                    Ok(h.cursor)
                }
            },
        }
    }

    /// What `fdstat` reports of `fd`.
    pub fn fdstat(&self, px: &PendingTransaction, fd: u32) -> (r: Result<FdStat, ErrNo>)
        ensures
            r == fdstat_spec(self@, fd as int),
    {
        let idx = fd as usize;
        if idx >= self.fds.len() {
            return Err(ErrNo::BadDescriptor);
        }
        match &self.fds[idx] {
            None => Err(ErrNo::BadDescriptor),
            Some(h) => {
                if h.is_dir {
                    Ok(
                        FdStat {
                            file_type: FileType::Directory,
                            flags: FdFlags { append: false },
                        },
                    )
                } else {
                    Ok(
                        FdStat {
                            file_type: FileType::RegularFile,
                            flags: FdFlags { append: h.append },
                        },
                    )
                }
            },
        }
    }

    /// What `filestat` reports of `fd`.
    pub fn filestat(&self, px: &PendingTransaction, fd: u32) -> (r: Result<FileStat, ErrNo>)
        requires
            self@.wf(),
        ensures
            r == filestat_spec(self@, px@, fd as int),
    {
        let idx = fd as usize;
        if idx >= self.fds.len() {
            return Err(ErrNo::BadDescriptor);
        }
        match &self.fds[idx] {
            None => Err(ErrNo::BadDescriptor),
            Some(h) => {
                if h.is_dir {
                    Ok(FileStat { file_type: FileType::Directory, file_size: 0 })
                } else {
                    let node_idx = h.node;
                    match &self.files[node_idx] {
                        Some(node) => {
                            let len: u64 = if matches!(node.kind, NodeKind::Stdin) {
                                px.input().len() as u64
                            } else {
                                node.content.len() as u64
                            };
                            Ok(FileStat { file_type: FileType::RegularFile, file_size: len })
                        },
                        None => {
                            proof {
                                assert(false);
                            }
                            Err(ErrNo::BadDescriptor)
                        },
                    }
                }
            },
        }
    }

    /// The mount path of a preopened directory.
    pub fn prestat(&self, px: &PendingTransaction, fd: u32) -> (r: Result<Vec<u8>, ErrNo>)
        ensures
            match r {
                Ok(p) => prestat_spec(self@, fd as int) == Ok::<Seq<u8>, ErrNo>(p@),
                Err(e) => prestat_spec(self@, fd as int) == Err::<Seq<u8>, ErrNo>(e),
            },
    {
        if fd == crate::file::CHAIN_DIR_FILENO {
            let mut p: Vec<u8> = Vec::new();
            p.push(47);
            p.push(111);
            p.push(112);
            p.push(116);
            p.push(47);
            let mut c = crate::codec::copy_range(self.chain.as_slice(), 0, self.chain.len());
            p.append(&mut c);
            proof {
                assert(self.chain@.subrange(0, self.chain@.len() as int) =~= self.chain@);
                assert(p@ =~= seq![47u8, 111u8, 112u8, 116u8, 47u8] + self@.chain);
            }
            Ok(p)
        } else if fd == crate::file::HOME_DIR_FILENO {
            let mut p: Vec<u8> = Vec::new();
            p.push(46);
            proof {
                assert(p@ =~= seq![46u8]);
            }
            Ok(p)
        } else {
            Err(ErrNo::BadDescriptor)
        }
    }

    /// Move the cursor of the open file at `fd`; the new cursor is
    /// measured from the start, the old cursor, or end-of-content, and
    /// may pass the end but never fall below zero.
    pub fn seek(&mut self, px: &PendingTransaction, fd: u32, offset: i64, whence: Whence) -> (r:
        Result<u64, ErrNo>)
        requires
            old(self)@.wf(),
        ensures
            ({
                let (s2, rr) = seek_spec(old(self)@, px@, fd as int, offset as int, whence);
                final(self)@ == s2 && r == rr
            }),
            final(self)@.wf(),
    {
        let idx = fd as usize;
        if idx >= self.fds.len() {
            return Err(ErrNo::BadDescriptor);
        }
        let node_idx: usize;
        let append: bool;
        let cursor: u64;
        match &self.fds[idx] {
            None => {
                return Err(ErrNo::BadDescriptor);
            },
            Some(h) => {
                if h.is_dir {
                    return Err(ErrNo::InvalidArgument);
                }
                node_idx = h.node;
                append = h.append;
                cursor = h.cursor;
            },
        }
        let src_len: u64;
        match &self.files[node_idx] {
            Some(node) => {
                src_len = if matches!(node.kind, NodeKind::Stdin) {
                    px.input().len() as u64
                } else {
                    node.content.len() as u64
                };
            },
            None => {
                proof {
                    assert(false);
                }
                return Err(ErrNo::BadDescriptor);
            },
        }
        let base: i128 = match whence {
            Whence::Start => 0,
            Whence::Current => cursor as i128,
            Whence::End => src_len as i128,
        };
        let nc: i128 = base + offset as i128;
        if nc < 0 || nc > u64::MAX as i128 {
            return Err(ErrNo::InvalidArgument);
        }
        let new_cursor = nc as u64;
        self.fds[idx] = Some(mk_file_handle(node_idx, new_cursor, append));
        proof {
            let (s2, rr) = seek_spec(old(self)@, px@, fd as int, offset as int, whence);
            assert(final(self)@.fds =~= old(self)@.fds.update(
                fd as int,
                Some(file_handle(node_idx as int, nc as int, append)),
            ));
            assert(final(self)@ =~= s2);
            assert(final(self)@.wf());
        }
        Ok(new_cursor)
    }
}

/// Replace the element at `i`, returning what was there.
fn slot_replace<T>(v: &mut Vec<T>, i: usize, x: T) -> (r: T)
    requires
        i < old(v).len(),
    ensures
        r == old(v)@[i as int],
        final(v)@ == old(v)@.update(i as int, x),
{
    let mut x = x;
    core::mem::swap(&mut v[i], &mut x);
    x
}

/// Write `d` into `c` at offset `t`, zero-filling any gap.
#[verifier::loop_isolation(false)]
fn apply_write(c: &mut Vec<u8>, t: usize, d: &[u8])
    requires
        t + d@.len() <= usize::MAX,
    ensures
        final(c)@ == write_at(old(c)@, t as int, d@),
{
    let ghost c0 = old(c)@;
    let ghost padded = if t > c0.len() {
        c0 + Seq::new((t - c0.len()) as nat, |i: int| 0u8)
    } else {
        c0
    };
    proof {
        if c0.len() < t {
            assert(padded.len() == t as int);
            assert(c@ =~= padded.subrange(0, c@.len() as int));
        }
    }
    while c.len() < t
        invariant
            c0.len() >= t ==> c@ == c0,
            c0.len() < t ==> c0.len() <= c@.len() <= t && c@ =~= padded.subrange(
                0,
                c@.len() as int,
            ),
        decreases t - c@.len(),
    {
        proof {
            assert(c0.len() < t);
            assert(padded.len() == t as int);
            assert(padded[c@.len() as int] == 0u8);
        }
        c.push(0);
        proof {
            assert(c@ =~= padded.subrange(0, c@.len() as int));
        }
    }
    proof {
        assert(c@ =~= padded);
    }
    let dn = d.len();
    let mut i: usize = 0;
    while i < dn
        invariant
            dn == d@.len(),
            t + dn <= usize::MAX,
            padded.len() >= t,
            i <= dn,
            c@.len() == if t + i > padded.len() {
                t + i
            } else {
                padded.len() as int
            },
            c@ =~= padded.subrange(0, t as int) + d@.subrange(0, i as int) + (if t + i
                < padded.len() {
                padded.subrange(t + i, padded.len() as int)
            } else {
                Seq::<u8>::empty()
            }),
        decreases dn - i,
    {
        if t + i < c.len() {
            c[t + i] = d[i];
        } else {
            c.push(d[i]);
        }
        i = i + 1;
        proof {
            assert(c@ =~= padded.subrange(0, t as int) + d@.subrange(0, i as int) + (if t + i
                < padded.len() {
                padded.subrange(t + i, padded.len() as int)
            } else {
                Seq::<u8>::empty()
            }));
        }
    }
    proof {
        assert(d@.subrange(0, dn as int) =~= d@);
        assert(final(c)@ =~= write_at(c0, t as int, d@));
    }
}

/// A node rewrite that keeps kind, key and a valid flush mark, with the
/// handle's cursor moved, preserves well-formedness.
pub(crate) proof fn lemma_wf_node_update(s: BcfsV, fd: int, n2: NodeV, cursor2: int)
    requires
        s.wf(),
        s.fd_ok(fd),
        !s.handle(fd).is_dir,
        n2.kind == s.node_of(s.handle(fd)).kind,
        n2.key == s.node_of(s.handle(fd)).key,
        0 <= n2.flushed <= n2.content.len(),
        n2.kind == NodeKind::Regular ==> n2.flushed == 0,
    ensures
        s.with_node(s.handle(fd).node, n2).with_handle(
            fd,
            file_handle(s.handle(fd).node, cursor2, s.handle(fd).append),
        ).wf(),
        s.with_node(s.handle(fd).node, n2).wf(),
{
    let h = s.handle(fd);
    let s1 = s.with_node(h.node, n2);
    let s2 = s1.with_handle(fd, file_handle(h.node, cursor2, h.append));
    assert forall|x: int|
        0 <= x < s1.fds.len() && s1.fds[x] is Some implies s1.handle_node_ok(
        (#[trigger] s1.fds[x]).unwrap(),
    ) by {
        assert(s.fds[x] is Some);
    }
    assert forall|a: int, b: int|
        #![trigger s1.fds[a], s1.fds[b]]
        (0 <= a < s1.fds.len() && 0 <= b < s1.fds.len() && s1.fds[a] is Some && s1.fds[b] is Some
            && !s1.fds[a].unwrap().is_dir && !s1.fds[b].unwrap().is_dir && s1.node_of(
            s1.fds[a].unwrap(),
        ).kind == NodeKind::Regular && s1.node_of(s1.fds[b].unwrap()).kind == NodeKind::Regular
            && s1.node_of(s1.fds[a].unwrap()).key == s1.node_of(
            s1.fds[b].unwrap(),
        ).key) implies s1.fds[a].unwrap().node == s1.fds[b].unwrap().node by {
        let ha = s1.fds[a].unwrap();
        let hb = s1.fds[b].unwrap();
        assert(s1.node_of(ha).kind == s.node_of(ha).kind && s1.node_of(ha).key == s.node_of(
            ha,
        ).key);
        assert(s1.node_of(hb).kind == s.node_of(hb).kind && s1.node_of(hb).key == s.node_of(
            hb,
        ).key);
        assert(s.fds[a] is Some && s.fds[b] is Some);
    }
    assert(s1.wf());
    assert forall|x: int|
        0 <= x < s2.fds.len() && s2.fds[x] is Some implies s2.handle_node_ok(
        (#[trigger] s2.fds[x]).unwrap(),
    ) by {
        if x != fd {
            assert(s1.fds[x] is Some);
        }
    }
    assert forall|a: int, b: int|
        #![trigger s2.fds[a], s2.fds[b]]
        (0 <= a < s2.fds.len() && 0 <= b < s2.fds.len() && s2.fds[a] is Some && s2.fds[b] is Some
            && !s2.fds[a].unwrap().is_dir && !s2.fds[b].unwrap().is_dir && s2.node_of(
            s2.fds[a].unwrap(),
        ).kind == NodeKind::Regular && s2.node_of(s2.fds[b].unwrap()).kind == NodeKind::Regular
            && s2.node_of(s2.fds[a].unwrap()).key == s2.node_of(
            s2.fds[b].unwrap(),
        ).key) implies s2.fds[a].unwrap().node == s2.fds[b].unwrap().node by {
        let ha = s2.fds[a].unwrap();
        let hb = s2.fds[b].unwrap();
        assert(s2.node_of(ha).kind == s1.node_of(ha).kind && s2.node_of(ha).key == s1.node_of(
            ha,
        ).key);
        assert(s2.node_of(hb).kind == s1.node_of(hb).kind && s2.node_of(hb).key == s1.node_of(
            hb,
        ).key);
        if a == fd {
            assert(ha.node == s1.handle(fd).node);
        } else {
            assert(s1.fds[a] is Some);
        }
        if b == fd {
            assert(hb.node == s1.handle(fd).node);
        } else {
            assert(s1.fds[b] is Some);
        }
    }
    assert(s2.wf());
}

impl BCFS {
    /// Read into `bufs` in order from the open file at `fd`, starting at
    /// the cursor and advancing it; bytes past end-of-content are simply
    /// not there, and a buffer keeps its old suffix where they run out.
    #[verifier::loop_isolation(false)]
    #[verifier::rlimit(100)]
    pub fn read_vectored(&mut self, px: &PendingTransaction, fd: u32, bufs: &mut Vec<Vec<u8>>)
        -> (r: Result<usize, ErrNo>)
        requires
            old(self)@.wf(),
        ensures
            ({
                let (s2, avail, rr) = read_spec(
                    old(self)@,
                    px@,
                    fd as int,
                    sum_lens(old(bufs).deep_view()),
                );
                &&& final(self)@ == s2
                &&& match (r, rr) {
                    (Ok(c), Ok(ci)) => c as int == ci && final(bufs).deep_view() == fill_bufs(
                        old(bufs).deep_view(),
                        avail,
                    ),
                    (Err(e), Err(ei)) => e == ei && final(bufs)@ == old(bufs)@,
                    _ => false,
                }
            }),
            final(self)@.wf(),
    {
        let idx = fd as usize;
        if idx >= self.fds.len() {
            return Err(ErrNo::BadDescriptor);
        }
        let node_idx: usize;
        let append: bool;
        let cursor: u64;
        match &self.fds[idx] {
            None => {
                return Err(ErrNo::BadDescriptor);
            },
            Some(h) => {
                if h.is_dir {
                    return Err(ErrNo::InvalidArgument);
                }
                node_idx = h.node;
                append = h.append;
                cursor = h.cursor;
            },
        }
        let is_stdin: bool;
        match &self.files[node_idx] {
            Some(node) => {
                match node.kind {
                    NodeKind::Log | NodeKind::Stdout | NodeKind::Stderr => {
                        return Err(ErrNo::InvalidArgument);
                    },
                    NodeKind::Stdin => {
                        is_stdin = true;
                    },
                    _ => {
                        is_stdin = false;
                    },
                }
            },
            None => {
                proof {
                    assert(false);
                }
                return Err(ErrNo::BadDescriptor);
            },
        }
        let ghost h0 = old(self)@.handle(fd as int);
        let ghost srcv = if is_stdin {
            px@.input
        } else {
            old(self)@.node_of(h0).content
        };
        let src_total: usize = if is_stdin {
            px.input().len()
        } else {
            match &self.files[node_idx] {
                Some(node) => node.content.len(),
                None => {
                    proof {
                        assert(false);
                    }
                    0
                },
            }
        };
        let start: usize = if cursor > src_total as u64 {
            src_total
        } else {
            cursor as usize
        };
        let ghost availv = srcv.subrange(start as int, srcv.len() as int);
        let m = bufs.len();
        let mut i: usize = 0;
        let mut nread: usize = 0;
        proof {
            assert(old(bufs).deep_view().subrange(0, m as int) =~~= old(bufs).deep_view());
            assert(availv.subrange(0, availv.len() as int) =~= availv);
            assert(bufs.deep_view().subrange(0, 0) =~~= Seq::<Seq<u8>>::empty());
            assert(Seq::<Seq<u8>>::empty() + fill_bufs(old(bufs).deep_view(), availv) =~~= fill_bufs(
                old(bufs).deep_view(),
                availv,
            ));
            assert(sum_lens(old(bufs).deep_view().subrange(0, 0)) == 0);
        }
        while i < m
            invariant
                old(self)@.wf(),
                m == bufs@.len(),
                bufs@.len() == old(bufs)@.len(),
                i <= m,
                is_stdin ==> srcv == px@.input,
                src_total == srcv.len(),
                start <= src_total,
                availv == srcv.subrange(start as int, srcv.len() as int),
                nread <= availv.len(),
                nread as int == if sum_lens(old(bufs).deep_view().subrange(0, i as int))
                    <= availv.len() {
                    sum_lens(old(bufs).deep_view().subrange(0, i as int))
                } else {
                    availv.len() as int
                },
                start + nread <= src_total,
                forall|j: int| i <= j < m ==> bufs@[j] == old(bufs)@[j],
                fill_bufs(old(bufs).deep_view(), availv) =~~= bufs.deep_view().subrange(
                    0,
                    i as int,
                ) + fill_bufs(
                    old(bufs).deep_view().subrange(i as int, m as int),
                    availv.subrange(nread as int, availv.len() as int),
                ),
            decreases m - i,
        {
            let blen = bufs[i].len();
            let remaining = src_total - (start + nread);
            let k = if blen <= remaining {
                blen
            } else {
                remaining
            };
            let mut nb: Vec<u8>;
            if is_stdin {
                nb = crate::codec::copy_range(px.input().as_slice(), start + nread, k);
            } else {
                match &self.files[node_idx] {
                    Some(node) => {
                        nb = crate::codec::copy_range(node.content.as_slice(), start + nread, k);
                    },
                    None => {
                        proof {
                            assert(false);
                        }
                        nb = Vec::new();
                    },
                }
            }
            let mut tail_part = crate::codec::copy_range(bufs[i].as_slice(), k, blen - k);
            nb.append(&mut tail_part);
            let ghost rest_bytes = availv.subrange(nread as int, availv.len() as int);
            let ghost old_tail = old(bufs).deep_view().subrange(i as int, m as int);
            proof {
                assert(old_tail[0] == old(bufs).deep_view()[i as int]);
                assert(old_tail[0] =~= bufs@[i as int]@);
                assert(nb@ =~= rest_bytes.subrange(0, k as int) + old_tail[0].subrange(
                    k as int,
                    old_tail[0].len() as int,
                ));
            }
            let ghost pre_deep = bufs.deep_view();
            bufs[i] = nb;
            nread = nread + k;
            i = i + 1;
            proof {
                assert(bufs.deep_view() =~~= pre_deep.update(i - 1, nb@));
                assert(bufs.deep_view().subrange(0, i as int) =~~= bufs.deep_view().subrange(
                    0,
                    i - 1,
                ).push(nb@));
                assert(bufs.deep_view().subrange(0, i - 1) =~~= pre_deep.subrange(0, i - 1));
                assert(old_tail.subrange(1, old_tail.len() as int) =~~= old(
                    bufs,
                ).deep_view().subrange(i as int, m as int));
                assert(fill_bufs(old_tail, rest_bytes) =~~= seq![nb@] + fill_bufs(
                    old_tail.subrange(1, old_tail.len() as int),
                    rest_bytes.subrange(k as int, rest_bytes.len() as int),
                ));
                assert(rest_bytes.subrange(k as int, rest_bytes.len() as int) =~= availv.subrange(
                    nread as int,
                    availv.len() as int,
                ));
                assert(bufs.deep_view().subrange(0, i - 1) + (seq![nb@] + fill_bufs(
                    old(bufs).deep_view().subrange(i as int, m as int),
                    availv.subrange(nread as int, availv.len() as int),
                )) =~~= bufs.deep_view().subrange(0, i as int) + fill_bufs(
                    old(bufs).deep_view().subrange(i as int, m as int),
                    availv.subrange(nread as int, availv.len() as int),
                ));
                let pre = old(bufs).deep_view().subrange(0, i - 1);
                let cur = old(bufs).deep_view().subrange(0, i as int);
                lemma_sum_lens_push(pre, old(bufs).deep_view()[i - 1]);
                assert(cur =~~= pre.push(old(bufs).deep_view()[i - 1]));
            }
        }
        proof {
            assert(old(bufs).deep_view().subrange(m as int, m as int) =~~= Seq::<Seq<u8>>::empty());
            assert(fill_bufs(
                Seq::<Seq<u8>>::empty(),
                availv.subrange(nread as int, availv.len() as int),
            ) =~~= Seq::<Seq<u8>>::empty());
            assert(bufs.deep_view().subrange(0, m as int) =~~= bufs.deep_view());
            assert(fill_bufs(old(bufs).deep_view(), availv) =~~= bufs.deep_view());
            assert(old(bufs).deep_view().subrange(0, m as int) =~~= old(bufs).deep_view());
        }
        let new_cursor = start as u64 + nread as u64;
        self.fds[idx] = Some(mk_file_handle(node_idx, new_cursor, append));
        proof {
            let (s2, avail, rr) = read_spec(
                old(self)@,
                px@,
                fd as int,
                sum_lens(old(bufs).deep_view()),
            );
            assert(final(self)@.fds =~= old(self)@.fds.update(
                fd as int,
                Some(file_handle(node_idx as int, start + nread, append)),
            ));
            assert(final(self)@ =~= s2);
            assert(final(self)@.wf());
        }
        Ok(nread)
    }
}

impl BCFS {
    /// Read into `bufs` from an explicit `offset`; the cursor does not
    /// move.
    #[verifier::loop_isolation(false)]
    #[verifier::rlimit(60)]
    pub fn pread_vectored(
        &self,
        px: &PendingTransaction,
        fd: u32,
        bufs: &mut Vec<Vec<u8>>,
        offset: u64,
    ) -> (r: Result<usize, ErrNo>)
        requires
            self@.wf(),
        ensures
            ({
                let (avail, rr) = pread_spec(
                    self@,
                    px@,
                    fd as int,
                    sum_lens(old(bufs).deep_view()),
                    offset as int,
                );
                match (r, rr) {
                    (Ok(c), Ok(ci)) => c as int == ci && final(bufs).deep_view() == fill_bufs(
                        old(bufs).deep_view(),
                        avail,
                    ),
                    (Err(e), Err(ei)) => e == ei && final(bufs)@ == old(bufs)@,
                    _ => false,
                }
            }),
    {
        let idx = fd as usize;
        if idx >= self.fds.len() {
            return Err(ErrNo::BadDescriptor);
        }
        let node_idx: usize;
        match &self.fds[idx] {
            None => {
                return Err(ErrNo::BadDescriptor);
            },
            Some(h) => {
                if h.is_dir {
                    return Err(ErrNo::InvalidArgument);
                }
                node_idx = h.node;
            },
        }
        let is_stdin: bool;
        match &self.files[node_idx] {
            Some(node) => {
                match node.kind {
                    NodeKind::Log | NodeKind::Stdout | NodeKind::Stderr => {
                        return Err(ErrNo::InvalidArgument);
                    },
                    NodeKind::Stdin => {
                        is_stdin = true;
                    },
                    _ => {
                        is_stdin = false;
                    },
                }
            },
            None => {
                proof {
                    assert(false);
                }
                return Err(ErrNo::BadDescriptor);
            },
        }
        let ghost h0 = self@.handle(fd as int);
        let ghost srcv = if is_stdin {
            px@.input
        } else {
            self@.node_of(h0).content
        };
        let src_total: usize = if is_stdin {
            px.input().len()
        } else {
            match &self.files[node_idx] {
                Some(node) => node.content.len(),
                None => {
                    proof {
                        assert(false);
                    }
                    0
                },
            }
        };
        let start: usize = if offset > src_total as u64 {
            src_total
        } else {
            offset as usize
        };
        let ghost availv = srcv.subrange(start as int, srcv.len() as int);
        let m = bufs.len();
        let mut i: usize = 0;
        let mut nread: usize = 0;
        proof {
            assert(old(bufs).deep_view().subrange(0, m as int) =~~= old(bufs).deep_view());
            assert(availv.subrange(0, availv.len() as int) =~= availv);
            assert(bufs.deep_view().subrange(0, 0) =~~= Seq::<Seq<u8>>::empty());
            assert(Seq::<Seq<u8>>::empty() + fill_bufs(old(bufs).deep_view(), availv) =~~= fill_bufs(
                old(bufs).deep_view(),
                availv,
            ));
            assert(sum_lens(old(bufs).deep_view().subrange(0, 0)) == 0);
        }
        while i < m
            invariant
                m == bufs@.len(),
                bufs@.len() == old(bufs)@.len(),
                i <= m,
                nread <= availv.len(),
                nread as int == if sum_lens(old(bufs).deep_view().subrange(0, i as int))
                    <= availv.len() {
                    sum_lens(old(bufs).deep_view().subrange(0, i as int))
                } else {
                    availv.len() as int
                },
                start + nread <= src_total,
                forall|j: int| i <= j < m ==> bufs@[j] == old(bufs)@[j],
                fill_bufs(old(bufs).deep_view(), availv) =~~= bufs.deep_view().subrange(
                    0,
                    i as int,
                ) + fill_bufs(
                    old(bufs).deep_view().subrange(i as int, m as int),
                    availv.subrange(nread as int, availv.len() as int),
                ),
            decreases m - i,
        {
            let blen = bufs[i].len();
            let remaining = src_total - (start + nread);
            let k = if blen <= remaining {
                blen
            } else {
                remaining
            };
            let mut nb: Vec<u8>;
            if is_stdin {
                nb = crate::codec::copy_range(px.input().as_slice(), start + nread, k);
            } else {
                match &self.files[node_idx] {
                    Some(node) => {
                        nb = crate::codec::copy_range(node.content.as_slice(), start + nread, k);
                    },
                    None => {
                        proof {
                            assert(false);
                        }
                        nb = Vec::new();
                    },
                }
            }
            let mut tail_part = crate::codec::copy_range(bufs[i].as_slice(), k, blen - k);
            nb.append(&mut tail_part);
            let ghost rest_bytes = availv.subrange(nread as int, availv.len() as int);
            let ghost old_tail = old(bufs).deep_view().subrange(i as int, m as int);
            proof {
                assert(old_tail[0] == old(bufs).deep_view()[i as int]);
                assert(old_tail[0] =~= bufs@[i as int]@);
                assert(nb@ =~= rest_bytes.subrange(0, k as int) + old_tail[0].subrange(
                    k as int,
                    old_tail[0].len() as int,
                ));
            }
            let ghost pre_deep = bufs.deep_view();
            bufs[i] = nb;
            nread = nread + k;
            i = i + 1;
            proof {
                assert(bufs.deep_view() =~~= pre_deep.update(i - 1, nb@));
                assert(bufs.deep_view().subrange(0, i as int) =~~= bufs.deep_view().subrange(
                    0,
                    i - 1,
                ).push(nb@));
                assert(bufs.deep_view().subrange(0, i - 1) =~~= pre_deep.subrange(0, i - 1));
                assert(old_tail.subrange(1, old_tail.len() as int) =~~= old(
                    bufs,
                ).deep_view().subrange(i as int, m as int));
                assert(fill_bufs(old_tail, rest_bytes) =~~= seq![nb@] + fill_bufs(
                    old_tail.subrange(1, old_tail.len() as int),
                    rest_bytes.subrange(k as int, rest_bytes.len() as int),
                ));
                assert(rest_bytes.subrange(k as int, rest_bytes.len() as int) =~= availv.subrange(
                    nread as int,
                    availv.len() as int,
                ));
                assert(bufs.deep_view().subrange(0, i - 1) + (seq![nb@] + fill_bufs(
                    old(bufs).deep_view().subrange(i as int, m as int),
                    availv.subrange(nread as int, availv.len() as int),
                )) =~~= bufs.deep_view().subrange(0, i as int) + fill_bufs(
                    old(bufs).deep_view().subrange(i as int, m as int),
                    availv.subrange(nread as int, availv.len() as int),
                ));
                let pre = old(bufs).deep_view().subrange(0, i - 1);
                let cur = old(bufs).deep_view().subrange(0, i as int);
                lemma_sum_lens_push(pre, old(bufs).deep_view()[i - 1]);
                assert(cur =~~= pre.push(old(bufs).deep_view()[i - 1]));
            }
        }
        proof {
            assert(old(bufs).deep_view().subrange(m as int, m as int) =~~= Seq::<Seq<u8>>::empty());
            assert(fill_bufs(
                Seq::<Seq<u8>>::empty(),
                availv.subrange(nread as int, availv.len() as int),
            ) =~~= Seq::<Seq<u8>>::empty());
            assert(bufs.deep_view().subrange(0, m as int) =~~= bufs.deep_view());
            assert(fill_bufs(old(bufs).deep_view(), availv) =~~= bufs.deep_view());
            assert(old(bufs).deep_view().subrange(0, m as int) =~~= old(bufs).deep_view());
        }
        Ok(nread)
    }

    /// The shared write path: `at` of `None` writes at the cursor and
    /// advances it; `Some(offset)` writes positionally.
    #[verifier::rlimit(60)]
    fn write_inner(&mut self, fd: u32, data: &Vec<u8>, at: Option<u64>) -> (r: Result<
        usize,
        ErrNo,
    >)
        requires
            old(self)@.wf(),
        ensures
            at is None ==> ({
                let (s2, rr) = write_spec(old(self)@, fd as int, data@);
                final(self)@ == s2 && match (r, rr) {
                    (Ok(c), Ok(ci)) => c as int == ci,
                    (Err(e), Err(ei)) => e == ei,
                    _ => false,
                }
            }),
            at is Some ==> ({
                let (s2, rr) = pwrite_spec(old(self)@, fd as int, data@, at.unwrap() as int);
                final(self)@ == s2 && match (r, rr) {
                    (Ok(c), Ok(ci)) => c as int == ci,
                    (Err(e), Err(ei)) => e == ei,
                    _ => false,
                }
            }),
            final(self)@.wf(),
    {
        let idx = fd as usize;
        if idx >= self.fds.len() {
            return Err(ErrNo::BadDescriptor);
        }
        let node_idx: usize;
        let append: bool;
        let cursor: u64;
        match &self.fds[idx] {
            None => {
                return Err(ErrNo::BadDescriptor);
            },
            Some(h) => {
                if h.is_dir {
                    return Err(ErrNo::InvalidArgument);
                }
                node_idx = h.node;
                append = h.append;
                cursor = h.cursor;
            },
        }
        let content_len: usize;
        match &self.files[node_idx] {
            Some(node) => {
                match node.kind {
                    NodeKind::Stdin => {
                        return Err(ErrNo::InvalidArgument);
                    },
                    NodeKind::Balance | NodeKind::Bytecode => {
                        return Err(ErrNo::AccessDenied);
                    },
                    _ => {},
                }
                content_len = node.content.len();
            },
            None => {
                proof {
                    assert(false);
                }
                return Err(ErrNo::BadDescriptor);
            },
        }
        let t: usize;
        if append {
            t = content_len;
        } else {
            let pos: u64 = match at {
                Some(off) => off,
                None => cursor,
            };
            if pos > usize::MAX as u64 {
                return Err(ErrNo::InvalidArgument);
            }
            t = pos as usize;
        }
        if data.len() > usize::MAX - t {
            return Err(ErrNo::InvalidArgument);
        }
        let mut node = match slot_replace(&mut self.files, node_idx, None) {
            Some(n) => n,
            None => {
                proof {
                    assert(false);
                }
                mk_stream_node(NodeKind::Temp)
            },
        };
        apply_write(&mut node.content, t, data.as_slice());
        node.dirty = true;
        let ghost n2 = node@;
        let _ = slot_replace(&mut self.files, node_idx, Some(node));
        let ghost h0 = old(self)@.handle(fd as int);
        proof {
            assert(write_at(old(self)@.node_of(h0).content, t as int, data@).len()
                >= old(self)@.node_of(h0).content.len());
            lemma_wf_node_update(old(self)@, fd as int, n2, t + data@.len());
        }
        if at.is_none() {
            self.fds[idx] = Some(mk_file_handle(node_idx, t as u64 + data.len() as u64, append));
            proof {
                let (s2, rr) = write_spec(old(self)@, fd as int, data@);
                assert(n2 =~= (NodeV {
                    content: write_at(old(self)@.node_of(h0).content, t as int, data@),
                    dirty: true,
                    ..old(self)@.node_of(h0)
                }));
                assert(final(self)@.files =~= old(self)@.files.update(
                    node_idx as int,
                    Some(n2),
                ));
                assert(final(self)@.fds =~= old(self)@.fds.update(
                    fd as int,
                    Some(file_handle(node_idx as int, t + data@.len(), append)),
                ));
                assert(final(self)@ =~= s2);
            }
        } else {
            proof {
                let (s2, rr) = pwrite_spec(old(self)@, fd as int, data@, at.unwrap() as int);
                assert(n2 =~= (NodeV {
                    content: write_at(old(self)@.node_of(h0).content, t as int, data@),
                    dirty: true,
                    ..old(self)@.node_of(h0)
                }));
                assert(final(self)@.files =~= old(self)@.files.update(
                    node_idx as int,
                    Some(n2),
                ));
                assert(final(self)@.fds =~= old(self)@.fds);
                assert(final(self)@ =~= s2);
            }
        }
        Ok(data.len())
    }

    /// Write the buffers in order through `fd` at the cursor (or at
    /// end-of-content for an append handle), advancing the cursor past
    /// the written bytes.
    #[verifier::loop_isolation(false)]
    pub fn write_vectored(&mut self, px: &PendingTransaction, fd: u32, bufs: &Vec<Vec<u8>>) -> (r:
        Result<usize, ErrNo>)
        requires
            old(self)@.wf(),
        ensures
            ({
                let (s2, rr) = write_spec(old(self)@, fd as int, bufs.deep_view().flatten());
                final(self)@ == s2 && match (r, rr) {
                    (Ok(c), Ok(ci)) => c as int == ci,
                    (Err(e), Err(ei)) => e == ei,
                    _ => false,
                }
            }),
            final(self)@.wf(),
    {
        let data = concat_bufs(bufs);
        self.write_inner(fd, &data, None)
    }

    /// Write the buffers in order at an explicit `offset` (end-of-content
    /// for an append handle); the cursor does not move.
    #[verifier::loop_isolation(false)]
    pub fn pwrite_vectored(
        &mut self,
        px: &PendingTransaction,
        fd: u32,
        bufs: &Vec<Vec<u8>>,
        offset: u64,
    ) -> (r: Result<usize, ErrNo>)
        requires
            old(self)@.wf(),
        ensures
            ({
                let (s2, rr) = pwrite_spec(
                    old(self)@,
                    fd as int,
                    bufs.deep_view().flatten(),
                    offset as int,
                );
                final(self)@ == s2 && match (r, rr) {
                    (Ok(c), Ok(ci)) => c as int == ci,
                    (Err(e), Err(ei)) => e == ei,
                    _ => false,
                }
            }),
            final(self)@.wf(),
    {
        let data = concat_bufs(bufs);
        self.write_inner(fd, &data, Some(offset))
    }
}

/// The buffers joined into one byte vector, in order.
#[verifier::loop_isolation(false)]
fn concat_bufs(bufs: &Vec<Vec<u8>>) -> (r: Vec<u8>)
    ensures
        r@ == bufs.deep_view().flatten(),
{
    let mut data: Vec<u8> = Vec::new();
    let mut i: usize = 0;
    proof {
        assert(bufs.deep_view().subrange(0, 0) =~~= Seq::<Seq<u8>>::empty());
        assert(Seq::<Seq<u8>>::empty().flatten() =~= Seq::<u8>::empty());
    }
    while i < bufs.len()
        invariant
            i <= bufs@.len(),
            data@ =~= bufs.deep_view().subrange(0, i as int).flatten(),
        decreases bufs@.len() - i,
    {
        let mut piece = crate::codec::copy_range(bufs[i].as_slice(), 0, bufs[i].len());
        data.append(&mut piece);
        i = i + 1;
        proof {
            let dv = bufs.deep_view();
            assert(bufs@[i - 1]@.subrange(0, bufs@[i - 1]@.len() as int) =~= bufs@[i - 1]@);
            assert(dv[i - 1] =~= bufs@[i - 1]@);
            let pre = dv.subrange(0, i - 1);
            pre.lemma_flatten_push(dv[i - 1]);
            assert(dv.subrange(0, i as int) =~~= pre.push(dv[i - 1]));
            assert(data@ =~= dv.subrange(0, i as int).flatten());
        }
    }
    proof {
        assert(bufs.deep_view().subrange(0, bufs@.len() as int) =~~= bufs.deep_view());
    }
    data
}

/// The least free descriptor lies within or just past the table, and
/// is indeed free where it lies within it.
pub(crate) proof fn lemma_first_free_bounds(fds: Seq<Option<HandleV>>, i: int)
    requires
        0 <= i <= fds.len(),
    ensures
        i <= first_free_from(fds, i) <= fds.len(),
        first_free_from(fds, i) < fds.len() ==> fds[first_free_from(fds, i)] is None,
    decreases fds.len() - i,
{
    if i < fds.len() && !(fds[i] is None) {
        lemma_first_free_bounds(fds, i + 1);
    }
}

/// Where no descriptor is alive on the key, the scan runs off the table.
pub(crate) proof fn lemma_first_alive_all(s: BcfsV, key: Seq<u8>, i: int)
    requires
        0 <= i <= s.fds.len(),
        forall|x: int| i <= x ==> !alive_regular(s, x, key),
    ensures
        first_alive_fd(s, key, i) == s.fds.len(),
    decreases s.fds.len() - i,
{
    if i < s.fds.len() {
        lemma_first_alive_all(s, key, i + 1);
    }
}

/// Where the scan ran off the table, no descriptor is alive on the key.
pub(crate) proof fn lemma_first_alive_none(s: BcfsV, key: Seq<u8>, i: int)
    requires
        0 <= i <= s.fds.len(),
        first_alive_fd(s, key, i) == s.fds.len(),
    ensures
        forall|x: int| i <= x ==> !alive_regular(s, x, key),
    decreases s.fds.len() - i,
{
    if i < s.fds.len() {
        lemma_first_alive_none(s, key, i + 1);
        assert(forall|x: int| x < 0 || x >= s.fds.len() ==> !alive_regular(s, x, key));
    } else {
        assert(forall|x: int| x >= i ==> !alive_regular(s, x, key));
    }
}

/// The least alive descriptor lies within or just past the table, and
/// its handle is indeed alive on the key where it lies within it.
pub(crate) proof fn lemma_first_alive_bounds(s: BcfsV, key: Seq<u8>, i: int)
    requires
        0 <= i <= s.fds.len(),
    ensures
        i <= first_alive_fd(s, key, i) <= s.fds.len(),
        first_alive_fd(s, key, i) < s.fds.len() ==> alive_regular(s, first_alive_fd(s, key, i), key),
    decreases s.fds.len() - i,
{
    if i < s.fds.len() && !alive_regular(s, i, key) {
        lemma_first_alive_bounds(s, key, i + 1);
    }
}

/// Seating a handle at the least free descriptor preserves
/// well-formedness, provided the handle's node is live and any stored
/// file it works on is already its node's.
pub(crate) proof fn lemma_wf_seat(s: BcfsV, h: HandleV)
    requires
        s.wf(),
        s.handle_node_ok(h),
        (!h.is_dir && s.node_of(h).kind == NodeKind::Regular) ==> forall|x: int|
            #[trigger] alive_regular(s, x, s.node_of(h).key) ==> s.fds[x].unwrap().node == h.node,
    ensures
        alloc_fd(s, h).0.wf(),
{
    let s2 = alloc_fd(s, h).0;
    let fd = first_free_from(s.fds, 0);
    lemma_first_free_bounds(s.fds, 0);
    assert(s2.files == s.files);
    assert forall|x: int|
        0 <= x < s2.fds.len() && s2.fds[x] is Some implies s2.handle_node_ok(
        (#[trigger] s2.fds[x]).unwrap(),
    ) by {
        if x != fd {
            assert(s2.fds[x] == s.fds[x]);
        }
    }
    assert forall|a: int, b: int|
        #![trigger s2.fds[a], s2.fds[b]]
        (0 <= a < s2.fds.len() && 0 <= b < s2.fds.len() && s2.fds[a] is Some && s2.fds[b] is Some
            && !s2.fds[a].unwrap().is_dir && !s2.fds[b].unwrap().is_dir && s2.node_of(
            s2.fds[a].unwrap(),
        ).kind == NodeKind::Regular && s2.node_of(s2.fds[b].unwrap()).kind == NodeKind::Regular
            && s2.node_of(s2.fds[a].unwrap()).key == s2.node_of(
            s2.fds[b].unwrap(),
        ).key) implies s2.fds[a].unwrap().node == s2.fds[b].unwrap().node by {
        let ha = s2.fds[a].unwrap();
        let hb = s2.fds[b].unwrap();
        if a == fd && b == fd {
        } else if a == fd {
            assert(s.fds[b] is Some && s.fds[b] == s2.fds[b]);
            assert(alive_regular(s, b, s.node_of(h).key));
        } else if b == fd {
            assert(s.fds[a] is Some && s.fds[a] == s2.fds[a]);
            assert(alive_regular(s, a, s.node_of(h).key));
        } else {
            assert(s.fds[a] == s2.fds[a] && s.fds[b] == s2.fds[b]);
        }
    }
}

/// Adding a fresh, well-bounded node preserves well-formedness and
/// changes no handle's view of the world.
pub(crate) proof fn lemma_wf_push_node(s: BcfsV, n: NodeV)
    requires
        s.wf(),
        0 <= n.flushed <= n.content.len(),
        n.kind == NodeKind::Regular ==> n.flushed == 0,
    ensures
        (BcfsV { files: s.files.push(Some(n)), ..s }).wf(),
        forall|x: int, k: Seq<u8>|
            alive_regular(BcfsV { files: s.files.push(Some(n)), ..s }, x, k)
                == #[trigger] alive_regular(s, x, k),
{
    let s2 = BcfsV { files: s.files.push(Some(n)), ..s };
    assert forall|x: int|
        0 <= x < s2.fds.len() && s2.fds[x] is Some implies s2.handle_node_ok(
        (#[trigger] s2.fds[x]).unwrap(),
    ) by {
        assert(s.fds[x] is Some);
        let hx = s.fds[x].unwrap();
        if !hx.is_dir {
            assert(s2.files[hx.node] == s.files[hx.node]);
        }
    }
    assert forall|x: int, k: Seq<u8>| true implies alive_regular(s2, x, k) == #[trigger] alive_regular(
        s,
        x,
        k,
    ) by {
        if 0 <= x < s.fds.len() && s.fds[x] is Some && !s.fds[x].unwrap().is_dir {
            let hx = s.fds[x].unwrap();
            assert(s2.files[hx.node] == s.files[hx.node]);
        }
    }
    assert forall|a: int, b: int|
        #![trigger s2.fds[a], s2.fds[b]]
        (0 <= a < s2.fds.len() && 0 <= b < s2.fds.len() && s2.fds[a] is Some && s2.fds[b] is Some
            && !s2.fds[a].unwrap().is_dir && !s2.fds[b].unwrap().is_dir && s2.node_of(
            s2.fds[a].unwrap(),
        ).kind == NodeKind::Regular && s2.node_of(s2.fds[b].unwrap()).kind == NodeKind::Regular
            && s2.node_of(s2.fds[a].unwrap()).key == s2.node_of(
            s2.fds[b].unwrap(),
        ).key) implies s2.fds[a].unwrap().node == s2.fds[b].unwrap().node by {
        let ha = s2.fds[a].unwrap();
        let hb = s2.fds[b].unwrap();
        assert(s.fds[a] is Some && s.fds[b] is Some);
        assert(s2.files[ha.node] == s.files[ha.node]);
        assert(s2.files[hb.node] == s.files[hb.node]);
    }
}

impl BCFS {
    /// The least free descriptor number.
    #[verifier::loop_isolation(false)]
    fn find_free(&self) -> (i: usize)
        ensures
            i as int == first_free_from(self@.fds, 0),
            i <= self@.fds.len(),
    {
        let n = self.fds.len();
        let mut i: usize = 0;
        while i < n && self.fds[i].is_some()
            invariant
                i <= n,
                first_free_from(self@.fds, 0) == first_free_from(self@.fds, i as int),
            decreases n - i,
        {
            i = i + 1;
            proof {
                assert(first_free_from(self@.fds, i - 1) == first_free_from(self@.fds, i as int));
            }
        }
        proof {
            assert(first_free_from(self@.fds, i as int) == i);
        }
        i
    }

    /// Seat `h` at the least free descriptor, already known to be `free`.
    fn seat_handle(&mut self, free: usize, h: OpenHandle)
        requires
            free as int == first_free_from(old(self)@.fds, 0),
            free <= old(self)@.fds.len(),
        ensures
            final(self)@ == alloc_fd(old(self)@, h@).0,
            final(self)@.files == old(self)@.files,
    {
        if free == self.fds.len() {
            self.fds.push(Some(h));
            proof {
                assert(final(self)@.fds =~= old(self)@.fds.push(Some(h@)));
                assert(final(self)@.files =~= old(self)@.files);
                assert(final(self)@ =~= alloc_fd(old(self)@, h@).0);
            }
        } else {
            self.fds[free] = Some(h);
            proof {
                assert(final(self)@.fds =~= old(self)@.fds.update(free as int, Some(h@)));
                assert(final(self)@.files =~= old(self)@.files);
                assert(final(self)@ =~= alloc_fd(old(self)@, h@).0);
            }
        }
    }

    /// Add a fresh node at the end of the node table.
    fn push_node(&mut self, n: FileNode)
        ensures
            final(self)@ == (BcfsV { files: old(self)@.files.push(Some(n@)), ..old(self)@ }),
    {
        self.files.push(Some(n));
        proof {
            assert(final(self)@.files =~= old(self)@.files.push(Some(n@)));
            assert(final(self)@ =~= (BcfsV {
                files: old(self)@.files.push(Some(n@)),
                ..old(self)@
            }));
        }
    }
}

/// Whether a segment names an existing account.
fn seg_account(px: &PendingTransaction, seg: &Vec<u8>) -> (r: bool)
    ensures
        r == is_account_seg(px@, seg@),
{
    match crate::codec::hex_decode(seg.as_slice()) {
        Some(a) => {
            if a.len() == 20 {
                px.account_exists_key(a.as_slice())
            } else {
                false
            }
        },
        None => false,
    }
}

impl BCFS {
    /// Open `path` against the directory at `base_fd`: create, share or
    /// snapshot the file the canonical path names, and seat a handle on
    /// it at the least free descriptor.
    #[verifier::loop_isolation(false)]
    #[verifier::rlimit(100)]
    pub fn open(
        &mut self,
        px: &PendingTransaction,
        base_fd: u32,
        path: &[u8],
        of: OpenFlags,
        ff: FdFlags,
    ) -> (r: Result<u32, ErrNo>)
        requires
            old(self)@.wf(),
            px.wf(),
        ensures
            ({
                let (s2, rr) = open_spec(old(self)@, px@, base_fd as int, path@, of, ff);
                final(self)@ == s2 && r == rr
            }),
            final(self)@.wf(),
    {
        let bidx = base_fd as usize;
        if bidx >= self.fds.len() {
            return Err(ErrNo::BadDescriptor);
        }
        let base_prefix: Vec<Vec<u8>>;
        match &self.fds[bidx] {
            None => {
                return Err(ErrNo::BadDescriptor);
            },
            Some(h) => {
                if !h.is_dir {
                    return Err(ErrNo::BadDescriptor);
                }
                if path.len() == 0 {
                    return Err(ErrNo::InvalidArgument);
                }
                if path[0] == 47 {
                    base_prefix = Vec::new();
                    proof {
                        assert(base_prefix.deep_view() =~~= Seq::<Seq<u8>>::empty());
                    }
                } else {
                    base_prefix = copy_segs(&h.prefix);
                }
            },
        }
        let segs = crate::path::split_path(path);
        let copt = crate::path::canonicalize(&base_prefix, &segs);
        match copt {
            None => Err(ErrNo::NotFound),
            Some(c) => self.open_resolved_exec(px, c, of, ff),
        }
    }

    /// Open an already-canonical path.
    #[verifier::loop_isolation(false)]
    #[verifier::rlimit(100)]
    fn open_resolved_exec(
        &mut self,
        px: &PendingTransaction,
        c: Vec<Vec<u8>>,
        of: OpenFlags,
        ff: FdFlags,
    ) -> (r: Result<u32, ErrNo>)
        requires
            old(self)@.wf(),
            px.wf(),
        ensures
            ({
                let (s2, rr) = open_resolved(old(self)@, px@, c.deep_view(), of, ff);
                final(self)@ == s2 && r == rr
            }),
            final(self)@.wf(),
    {
        let ghost cdv = c.deep_view();
        proof {
            if cdv.len() > 0 {
                assert(cdv[0] =~= c@[0]@);
            }
            if cdv.len() > 1 {
                assert(cdv[1] =~= c@[1]@);
            }
        }
        let mut is_dir = c.len() == 0;
        let mut is_log = false;
        if c.len() == 1 {
            let ll = log_lit();
            if crate::codec::bytes_eq(c[0].as_slice(), ll.as_slice()) {
                is_log = true;
            } else if seg_account(px, &c[0]) {
                is_dir = true;
            }
        }
        proof {
            assert(is_dir == is_dir_path(px@, cdv));
            assert(is_log == is_log_path(cdv));
        }
        if is_dir {
            if of.create || of.excl {
                return Err(ErrNo::AlreadyExists);
            }
            if of.trunc {
                return Err(ErrNo::InvalidArgument);
            }
            let free = self.find_free();
            if free > (u32::MAX as usize) {
                return Err(ErrNo::InvalidArgument);
            }
            let h = OpenHandle { is_dir: true, prefix: c, node: 0, cursor: 0, append: false };
            proof {
                assert(h@ =~= dir_handle(cdv));
                lemma_wf_seat(old(self)@, h@);
            }
            self.seat_handle(free, h);
            return Ok(free as u32);
        }
        if is_log {
            if of.create || of.excl {
                return Err(ErrNo::AlreadyExists);
            }
            if of.trunc {
                return Err(ErrNo::InvalidArgument);
            }
            if !ff.append {
                return Err(ErrNo::InvalidArgument);
            }
            let free = self.find_free();
            if free > (u32::MAX as usize) {
                return Err(ErrNo::InvalidArgument);
            }
            let node = mk_stream_node(NodeKind::Log);
            let node_idx = self.files.len();
            proof {
                lemma_wf_push_node(old(self)@, node@);
            }
            self.push_node(node);
            let h = mk_file_handle(node_idx, 0, ff.append);
            proof {
                lemma_wf_seat(self@, h@);
                assert(first_free_from(self@.fds, 0) == first_free_from(old(self)@.fds, 0));
            }
            self.seat_handle(free, h);
            proof {
                let (s2, rr) = open_resolved(old(self)@, px@, cdv, of, ff);
                assert(final(self)@ =~= s2);
            }
            return Ok(free as u32);
        }
        let mut is_special = false;
        let mut is_bal = false;
        if c.len() == 2 && seg_account(px, &c[0]) {
            let bl = balance_lit();
            let cl = bytecode_lit();
            if crate::codec::bytes_eq(c[1].as_slice(), bl.as_slice()) {
                is_special = true;
                is_bal = true;
            } else if crate::codec::bytes_eq(c[1].as_slice(), cl.as_slice()) {
                is_special = true;
            }
        }
        proof {
            assert(is_special == is_special_pair(px@, cdv));
        }
        if is_special {
            if of.create || of.excl {
                return Err(ErrNo::AlreadyExists);
            }
            if of.trunc {
                return Err(ErrNo::InvalidArgument);
            }
            let free = self.find_free();
            if free > (u32::MAX as usize) {
                return Err(ErrNo::InvalidArgument);
            }
            let a = match crate::codec::hex_decode(c[0].as_slice()) {
                Some(a) => a,
                None => {
                    proof {
                        assert(false);
                    }
                    Vec::new()
                },
            };
            let node: FileNode;
            if is_bal {
                let b = match px.balance_of_key(a.as_slice()) {
                    Some(b) => b,
                    None => {
                        proof {
                            assert(false);
                        }
                        0
                    },
                };
                node = FileNode {
                    kind: NodeKind::Balance,
                    content: crate::codec::u128_to_le(b),
                    dirty: false,
                    flushed: 0,
                    key: Vec::new(),
                };
            } else {
                let code = match px.code_of_key(a.as_slice()) {
                    Some(cd) => crate::codec::copy_range(cd.as_slice(), 0, cd.len()),
                    None => {
                        proof {
                            assert(false);
                        }
                        Vec::new()
                    },
                };
                node = FileNode {
                    kind: NodeKind::Bytecode,
                    content: code,
                    dirty: false,
                    flushed: 0,
                    key: Vec::new(),
                };
            }
            let node_idx = self.files.len();
            proof {
                let aspec = addr_of_seg(cdv[0]).unwrap();
                assert(a@ == aspec);
                if !is_bal {
                    assert(node@.content =~= px@.state[aspec].code);
                }
                lemma_wf_push_node(old(self)@, node@);
            }
            self.push_node(node);
            let h = mk_file_handle(node_idx, 0, ff.append);
            proof {
                lemma_wf_seat(self@, h@);
                assert(first_free_from(self@.fds, 0) == first_free_from(old(self)@.fds, 0));
            }
            self.seat_handle(free, h);
            proof {
                let (s2, rr) = open_resolved(old(self)@, px@, cdv, of, ff);
                assert(final(self)@ =~= s2);
            }
            return Ok(free as u32);
        }
        let mut own_ok = false;
        if c.len() >= 2 && crate::codec::bytes_eq(c[0].as_slice(), self.home.as_slice()) {
            own_ok = true;
            if c.len() == 2 {
                let bl = balance_lit();
                let cl = bytecode_lit();
                if crate::codec::bytes_eq(c[1].as_slice(), bl.as_slice()) || crate::codec::bytes_eq(
                    c[1].as_slice(),
                    cl.as_slice(),
                ) {
                    own_ok = false;
                }
            }
        }
        proof {
            assert(own_ok == is_own_regular(old(self)@, cdv));
        }
        if !own_ok {
            return Err(ErrNo::NotFound);
        }
        let key = join_from(&c, 1);
        let ghost keyv = key@;
        proof {
            assert(keyv == key_of(cdv));
        }
        let mut found: Option<usize> = None;
        let nfds = self.fds.len();
        let mut i: usize = 0;
        while i < nfds && found.is_none()
            invariant
                nfds == self@.fds.len(),
                i <= nfds,
                match found {
                    None => first_alive_fd(self@, keyv, 0) == first_alive_fd(self@, keyv, i as int),
                    Some(idx) => first_alive_fd(self@, keyv, 0) < nfds && idx as int == self@.handle(
                        first_alive_fd(self@, keyv, 0),
                    ).node,
                },
            decreases nfds - i,
        {
            match &self.fds[i] {
                Some(h) => {
                    if !h.is_dir {
                        proof {
                            assert(self@.fds[i as int] == Some(h@));
                            assert(self@.handle_node_ok(self@.fds[i as int].unwrap()));
                        }
                        match &self.files[h.node] {
                            Some(node) => {
                                if node.kind == NodeKind::Regular && crate::codec::bytes_eq(
                                    node.key.as_slice(),
                                    key.as_slice(),
                                ) {
                                    found = Some(h.node);
                                    proof {
                                        assert(alive_regular(self@, i as int, keyv));
                                        assert(first_alive_fd(self@, keyv, i as int) == i);
                                        assert(self@.handle(i as int).node == h.node as int);
                                    }
                                }
                            },
                            None => {
                                proof {
                                    assert(false);
                                }
                            },
                        }
                    }
                },
                None => {},
            }
            proof {
                match found {
                    None => {
                        assert(!alive_regular(self@, i as int, keyv));
                        assert(first_alive_fd(self@, keyv, i as int) == first_alive_fd(
                            self@,
                            keyv,
                            i + 1,
                        ));
                    },
                    Some(idx) => {},
                }
            }
            i = i + 1;
        }
        proof {
            match found {
                None => {
                    assert(first_alive_fd(self@, keyv, nfds as int) == nfds);
                    assert(first_alive_fd(self@, keyv, 0) == nfds);
                },
                Some(idx) => {},
            }
            assert(first_alive_fd(self@, keyv, 0) == first_alive_fd(old(self)@, key_of(cdv), 0));
        }
        let stored = px.kv_contains(key.as_slice());
        let exists_f = found.is_some() || stored;
        if of.excl && exists_f {
            return Err(ErrNo::AlreadyExists);
        }
        if !exists_f && !of.create {
            return Err(ErrNo::NotFound);
        }
        let free = self.find_free();
        if free > (u32::MAX as usize) {
            return Err(ErrNo::InvalidArgument);
        }
        match found {
            Some(idx) => {
                let ghost afd = first_alive_fd(old(self)@, keyv, 0);
                proof {
                    lemma_first_alive_bounds(old(self)@, keyv, 0);
                    assert(alive_regular(old(self)@, afd, keyv));
                    assert(old(self)@.handle(afd).node == idx as int);
                }
                if of.trunc {
                    let mut node = match slot_replace(&mut self.files, idx, None) {
                        Some(n) => n,
                        None => {
                            proof {
                                assert(false);
                            }
                            mk_stream_node(NodeKind::Temp)
                        },
                    };
                    node.content = Vec::new();
                    node.dirty = true;
                    let ghost n2 = node@;
                    let _ = slot_replace(&mut self.files, idx, Some(node));
                    proof {
                        assert(n2 =~= (NodeV {
                            content: Seq::<u8>::empty(),
                            dirty: true,
                            ..old(self)@.node_of(old(self)@.handle(afd))
                        }));
                        lemma_wf_node_update(old(self)@, afd, n2, old(self)@.handle(afd).cursor);
                        assert(self@.files =~= old(self)@.files.update(idx as int, Some(n2)));
                        assert(self@ =~= old(self)@.with_node(idx as int, n2));
                    }
                }
                let h = mk_file_handle(idx, 0, ff.append);
                proof {
                    assert forall|x: int|
                        #[trigger] alive_regular(self@, x, keyv) implies self@.fds[x].unwrap().node
                        == idx as int by {
                        assert(alive_regular(self@, afd, keyv));
                    }
                    assert(self@.node_of(h@).kind == NodeKind::Regular && self@.node_of(h@).key
                        == keyv);
                    lemma_wf_seat(self@, h@);
                    assert(first_free_from(self@.fds, 0) == first_free_from(old(self)@.fds, 0));
                }
                self.seat_handle(free, h);
                proof {
                    let (s2, rr) = open_resolved(old(self)@, px@, cdv, of, ff);
                    assert(final(self)@ =~= s2);
                }
                Ok(free as u32)
            },
            None => {
                let content0: Vec<u8>;
                let dirty0: bool;
                if stored {
                    content0 = match px.kv_get(key.as_slice()) {
                        Some(v) => crate::codec::copy_range(v.as_slice(), 0, v.len()),
                        None => {
                            proof {
                                assert(false);
                            }
                            Vec::new()
                        },
                    };
                    dirty0 = false;
                } else {
                    content0 = Vec::new();
                    dirty0 = true;
                }
                let mut node = FileNode {
                    kind: NodeKind::Regular,
                    content: content0,
                    dirty: dirty0,
                    flushed: 0,
                    key,
                };
                if of.trunc {
                    node.content = Vec::new();
                    node.dirty = true;
                }
                let node_idx = self.files.len();
                proof {
                    assert(node@ =~= ({
                        let key2 = key_of(cdv);
                        let stored2 = px@.storage().contains_key(key2);
                        let content2 = if stored2 {
                            px@.storage()[key2]
                        } else {
                            Seq::<u8>::empty()
                        };
                        let n0 = NodeV {
                            kind: NodeKind::Regular,
                            content: content2,
                            dirty: !stored2,
                            flushed: 0,
                            key: key2,
                        };
                        if of.trunc {
                            NodeV { content: Seq::<u8>::empty(), dirty: true, ..n0 }
                        } else {
                            n0
                        }
                    }));
                    lemma_wf_push_node(old(self)@, node@);
                    lemma_first_alive_none(old(self)@, keyv, 0);
                }
                self.push_node(node);
                let h = mk_file_handle(node_idx, 0, ff.append);
                proof {
                    assert forall|x: int|
                        #[trigger] alive_regular(self@, x, keyv) implies self@.fds[x].unwrap().node
                        == node_idx as int by {
                        assert(alive_regular(old(self)@, x, keyv) == alive_regular(
                            self@,
                            x,
                            keyv,
                        ));
                        assert(!alive_regular(old(self)@, x, keyv));
                        assert(false);
                    }
                    lemma_wf_seat(self@, h@);
                    assert(first_free_from(self@.fds, 0) == first_free_from(old(self)@.fds, 0));
                }
                self.seat_handle(free, h);
                proof {
                    let (s2, rr) = open_resolved(old(self)@, px@, cdv, of, ff);
                    assert(final(self)@ =~= s2);
                }
                Ok(free as u32)
            },
        }
    }
}

/// Removing a handle preserves well-formedness.
pub(crate) proof fn lemma_wf_remove_handle(s: BcfsV, fd: int)
    requires
        s.wf(),
        0 <= fd < s.fds.len(),
    ensures
        s.without_handle(fd).wf(),
{
    let s2 = s.without_handle(fd);
    assert forall|x: int|
        0 <= x < s2.fds.len() && s2.fds[x] is Some implies s2.handle_node_ok(
        (#[trigger] s2.fds[x]).unwrap(),
    ) by {
        if x != fd {
            assert(s2.fds[x] == s.fds[x]);
        }
    }
    assert forall|a: int, b: int|
        #![trigger s2.fds[a], s2.fds[b]]
        (0 <= a < s2.fds.len() && 0 <= b < s2.fds.len() && s2.fds[a] is Some && s2.fds[b] is Some
            && !s2.fds[a].unwrap().is_dir && !s2.fds[b].unwrap().is_dir && s2.node_of(
            s2.fds[a].unwrap(),
        ).kind == NodeKind::Regular && s2.node_of(s2.fds[b].unwrap()).kind == NodeKind::Regular
            && s2.node_of(s2.fds[a].unwrap()).key == s2.node_of(
            s2.fds[b].unwrap(),
        ).key) implies s2.fds[a].unwrap().node == s2.fds[b].unwrap().node by {
        if a != fd && b != fd {
            assert(s2.fds[a] == s.fds[a] && s2.fds[b] == s.fds[b]);
        }
    }
}

/// Moving a handle from one descriptor to another preserves
/// well-formedness.
pub(crate) proof fn lemma_wf_renumber(s: BcfsV, from: int, to: int)
    requires
        s.wf(),
        s.fd_ok(from),
        0 <= to < s.fds.len(),
    ensures
        (BcfsV { fds: s.fds.update(to, s.fds[from]).update(from, None), ..s }).wf(),
{
    let s2 = BcfsV { fds: s.fds.update(to, s.fds[from]).update(from, None), ..s };
    assert forall|x: int|
        0 <= x < s2.fds.len() && s2.fds[x] is Some implies s2.handle_node_ok(
        (#[trigger] s2.fds[x]).unwrap(),
    ) by {
        if x == to && x != from {
            assert(s2.fds[x] == s.fds[from]);
        } else if x != from {
            assert(s2.fds[x] == s.fds[x]);
        }
    }
    assert forall|a: int, b: int|
        #![trigger s2.fds[a], s2.fds[b]]
        (0 <= a < s2.fds.len() && 0 <= b < s2.fds.len() && s2.fds[a] is Some && s2.fds[b] is Some
            && !s2.fds[a].unwrap().is_dir && !s2.fds[b].unwrap().is_dir && s2.node_of(
            s2.fds[a].unwrap(),
        ).kind == NodeKind::Regular && s2.node_of(s2.fds[b].unwrap()).kind == NodeKind::Regular
            && s2.node_of(s2.fds[a].unwrap()).key == s2.node_of(
            s2.fds[b].unwrap(),
        ).key) implies s2.fds[a].unwrap().node == s2.fds[b].unwrap().node by {
        let a0 = if a == to {
            from
        } else {
            a
        };
        let b0 = if b == to {
            from
        } else {
            b
        };
        assert(s2.fds[a] == s.fds[a0] && s2.fds[b] == s.fds[b0]);
    }
}

impl BCFS {
    /// Commit what the handle at `fd` holds: stored files go back to
    /// the account's storage, streams hand their new bytes to the
    /// transaction, the log emits one event per flush.
    #[verifier::rlimit(60)]
    pub fn flush(&mut self, px: &mut PendingTransaction, fd: u32) -> (r: Result<(), ErrNo>)
        requires
            old(self)@.wf(),
            old(px).wf(),
        ensures
            ({
                let (s2, p2, rr) = flush_spec(old(self)@, old(px)@, fd as int);
                final(self)@ == s2 && final(px)@ == p2 && r == rr
            }),
            final(self)@.wf(),
            final(px).wf(),
    {
        let idx = fd as usize;
        if idx >= self.fds.len() {
            return Err(ErrNo::BadDescriptor);
        }
        let node_idx: usize;
        match &self.fds[idx] {
            None => {
                return Err(ErrNo::BadDescriptor);
            },
            Some(h) => {
                if h.is_dir {
                    return Ok(());
                }
                node_idx = h.node;
            },
        }
        let ghost h0 = old(self)@.handle(fd as int);
        let kind: NodeKind;
        let dirty: bool;
        let flushed: usize;
        let clen: usize;
        match &self.files[node_idx] {
            Some(node) => {
                kind = node.kind;
                dirty = node.dirty;
                flushed = node.flushed;
                clen = node.content.len();
            },
            None => {
                proof {
                    assert(false);
                }
                return Err(ErrNo::BadDescriptor);
            },
        }
        match kind {
            NodeKind::Regular => {
                if !dirty {
                    return Ok(());
                }
                let key_copy: Vec<u8>;
                let content_copy: Vec<u8>;
                match &self.files[node_idx] {
                    Some(node) => {
                        key_copy = crate::codec::copy_range(node.key.as_slice(), 0, node.key.len());
                        content_copy = crate::codec::copy_range(
                            node.content.as_slice(),
                            0,
                            node.content.len(),
                        );
                        proof {
                            assert(key_copy@ =~= old(self)@.node_of(h0).key);
                            assert(content_copy@ =~= old(self)@.node_of(h0).content);
                        }
                    },
                    None => {
                        proof {
                            assert(false);
                        }
                        return Err(ErrNo::BadDescriptor);
                    },
                }
                px.kv_insert(key_copy, content_copy);
                let mut node = match slot_replace(&mut self.files, node_idx, None) {
                    Some(n) => n,
                    None => {
                        proof {
                            assert(false);
                        }
                        mk_stream_node(NodeKind::Temp)
                    },
                };
                node.dirty = false;
                let ghost n2 = node@;
                let _ = slot_replace(&mut self.files, node_idx, Some(node));
                proof {
                    assert(n2 =~= (NodeV { dirty: false, ..old(self)@.node_of(h0) }));
                    lemma_wf_node_update(old(self)@, fd as int, n2, h0.cursor);
                    assert(final(self)@.files =~= old(self)@.files.update(
                        node_idx as int,
                        Some(n2),
                    ));
                    assert(final(self)@ =~= old(self)@.with_node(h0.node, n2));
                    let (s2, p2, rr) = flush_spec(old(self)@, old(px)@, fd as int);
                    assert(final(self)@ =~= s2);
                    assert(final(px)@ =~= p2);
                }
                Ok(())
            },
            NodeKind::Stdout | NodeKind::Stderr => {
                let newb: Vec<u8>;
                match &self.files[node_idx] {
                    Some(node) => {
                        newb = crate::codec::copy_range(
                            node.content.as_slice(),
                            flushed,
                            clen - flushed,
                        );
                    },
                    None => {
                        proof {
                            assert(false);
                        }
                        return Err(ErrNo::BadDescriptor);
                    },
                }
                px.append_output(newb.as_slice());
                let mut node = match slot_replace(&mut self.files, node_idx, None) {
                    Some(n) => n,
                    None => {
                        proof {
                            assert(false);
                        }
                        mk_stream_node(NodeKind::Temp)
                    },
                };
                node.flushed = clen;
                let ghost n2 = node@;
                let _ = slot_replace(&mut self.files, node_idx, Some(node));
                proof {
                    assert(n2 =~= (NodeV {
                        flushed: old(self)@.node_of(h0).content.len() as int,
                        ..old(self)@.node_of(h0)
                    }));
                    lemma_wf_node_update(old(self)@, fd as int, n2, h0.cursor);
                    assert(final(self)@.files =~= old(self)@.files.update(
                        node_idx as int,
                        Some(n2),
                    ));
                    assert(final(self)@ =~= old(self)@.with_node(h0.node, n2));
                    let (s2, p2, rr) = flush_spec(old(self)@, old(px)@, fd as int);
                    assert(final(self)@ =~= s2);
                    assert(final(px)@ =~= p2);
                    assert(final(px)@.state == old(px)@.state);
                }
                Ok(())
            },
            NodeKind::Log => {
                if clen - flushed == 0 {
                    return Ok(());
                }
                let newb: Vec<u8>;
                match &self.files[node_idx] {
                    Some(node) => {
                        newb = crate::codec::copy_range(
                            node.content.as_slice(),
                            flushed,
                            clen - flushed,
                        );
                    },
                    None => {
                        proof {
                            assert(false);
                        }
                        return Err(ErrNo::BadDescriptor);
                    },
                }
                match crate::codec::parse_log_bytes(newb.as_slice()) {
                    None => Err(ErrNo::InvalidArgument),
                    Some(td) => {
                        let (topics, data) = td;
                        px.emit(&topics, data.as_slice());
                        let mut node = match slot_replace(&mut self.files, node_idx, None) {
                            Some(n) => n,
                            None => {
                                proof {
                                    assert(false);
                                }
                                mk_stream_node(NodeKind::Temp)
                            },
                        };
                        node.flushed = clen;
                        let ghost n2 = node@;
                        let _ = slot_replace(&mut self.files, node_idx, Some(node));
                        proof {
                            assert(n2 =~= (NodeV {
                                flushed: old(self)@.node_of(h0).content.len() as int,
                                ..old(self)@.node_of(h0)
                            }));
                            lemma_wf_node_update(old(self)@, fd as int, n2, h0.cursor);
                            assert(final(self)@.files =~= old(self)@.files.update(
                                node_idx as int,
                                Some(n2),
                            ));
                            assert(final(self)@ =~= old(self)@.with_node(h0.node, n2));
                            let (s2, p2, rr) = flush_spec(old(self)@, old(px)@, fd as int);
                            assert(final(self)@ =~= s2);
                            assert(final(px)@ =~= p2);
                            assert(final(px)@.state == old(px)@.state);
                        }
                        Ok(())
                    },
                }
            },
            _ => Ok(()),
        }
    }

    /// Close the handle at `fd`: flush it, then remove it from the
    /// table even where the flush failed, and report the flush's error.
    pub fn close(&mut self, px: &mut PendingTransaction, fd: u32) -> (r: Result<(), ErrNo>)
        requires
            old(self)@.wf(),
            old(px).wf(),
        ensures
            ({
                let (s2, p2, rr) = close_spec(old(self)@, old(px)@, fd as int);
                final(self)@ == s2 && final(px)@ == p2 && r == rr
            }),
            final(self)@.wf(),
            final(px).wf(),
    {
        let idx = fd as usize;
        if idx >= self.fds.len() {
            return Err(ErrNo::BadDescriptor);
        }
        if self.fds[idx].is_none() {
            return Err(ErrNo::BadDescriptor);
        }
        let r = self.flush(px, fd);
        proof {
            lemma_wf_remove_handle(self@, fd as int);
        }
        self.fds[idx] = None;
        proof {
            let (s2, p2, rr) = close_spec(old(self)@, old(px)@, fd as int);
            let (s1, p1, rr1) = flush_spec(old(self)@, old(px)@, fd as int);
            assert(final(self)@.fds =~= s1.fds.update(fd as int, None));
            assert(final(self)@ =~= s2);
        }
        r
    }

    /// Make `to` refer to what `from` referenced and remove `from`;
    /// what `to` held is implicitly closed (flushed) first.
    pub fn renumber(&mut self, px: &mut PendingTransaction, from: u32, to: u32) -> (r: Result<
        (),
        ErrNo,
    >)
        requires
            old(self)@.wf(),
            old(px).wf(),
        ensures
            ({
                let (s2, p2, rr) = renumber_spec(old(self)@, old(px)@, from as int, to as int);
                final(self)@ == s2 && final(px)@ == p2 && r == rr
            }),
            final(self)@.wf(),
            final(px).wf(),
    {
        let fidx = from as usize;
        let tidx = to as usize;
        if fidx >= self.fds.len() || tidx >= self.fds.len() {
            return Err(ErrNo::BadDescriptor);
        }
        if self.fds[fidx].is_none() || self.fds[tidx].is_none() {
            return Err(ErrNo::BadDescriptor);
        }
        if fidx == tidx {
            return Ok(());
        }
        let r = self.flush(px, to);
        let moved = slot_replace(&mut self.fds, fidx, None);
        proof {
            let (s1, p1, rr1) = flush_spec(old(self)@, old(px)@, to as int);
            assert(s1.fd_ok(from as int));
            lemma_wf_renumber(s1, from as int, to as int);
        }
        self.fds[tidx] = moved;
        proof {
            let (s2, p2, rr) = renumber_spec(old(self)@, old(px)@, from as int, to as int);
            let (s1, p1, rr1) = flush_spec(old(self)@, old(px)@, to as int);
            assert(final(self)@.fds =~= s1.fds.update(to as int, s1.fds[from as int]).update(
                from as int,
                None,
            ));
            assert(final(self)@ =~= s2);
        }
        r
    }

    /// Allocate an anonymous scratch file and seat a handle on it; its
    /// content never reaches the persistent store.
    pub fn tempfile(&mut self, px: &PendingTransaction) -> (r: Result<u32, ErrNo>)
        requires
            old(self)@.wf(),
        ensures
            ({
                let (s2, rr) = tempfile_spec(old(self)@);
                final(self)@ == s2 && r == rr
            }),
            final(self)@.wf(),
    {
        let free = self.find_free();
        if free > (u32::MAX as usize) {
            return Err(ErrNo::InvalidArgument);
        }
        let node = mk_stream_node(NodeKind::Temp);
        let node_idx = self.files.len();
        proof {
            lemma_wf_push_node(old(self)@, node@);
        }
        self.push_node(node);
        let h = mk_file_handle(node_idx, 0, false);
        proof {
            lemma_wf_seat(self@, h@);
            assert(first_free_from(self@.fds, 0) == first_free_from(old(self)@.fds, 0));
        }
        self.seat_handle(free, h);
        proof {
            let (s2, rr) = tempfile_spec(old(self)@);
            assert(final(self)@ =~= s2);
        }
        Ok(free as u32)
    }

    /// Remove the stored file `path` names, returning its byte length;
    /// directories and the synthetic files cannot be unlinked.
    pub fn unlink(&self, px: &mut PendingTransaction, base_fd: u32, path: &[u8]) -> (r: Result<
        u64,
        ErrNo,
    >)
        requires
            self@.wf(),
            old(px).wf(),
        ensures
            ({
                let (p2, rr) = unlink_spec(self@, old(px)@, base_fd as int, path@);
                final(px)@ == p2 && r == rr
            }),
            final(px).wf(),
    {
        let bidx = base_fd as usize;
        if bidx >= self.fds.len() {
            return Err(ErrNo::BadDescriptor);
        }
        let base_prefix: Vec<Vec<u8>>;
        match &self.fds[bidx] {
            None => {
                return Err(ErrNo::BadDescriptor);
            },
            Some(h) => {
                if !h.is_dir {
                    return Err(ErrNo::BadDescriptor);
                }
                if path.len() == 0 {
                    return Err(ErrNo::InvalidArgument);
                }
                if path[0] == 47 {
                    base_prefix = Vec::new();
                    proof {
                        assert(base_prefix.deep_view() =~~= Seq::<Seq<u8>>::empty());
                    }
                } else {
                    base_prefix = copy_segs(&h.prefix);
                }
            },
        }
        let segs = crate::path::split_path(path);
        let copt = crate::path::canonicalize(&base_prefix, &segs);
        let c = match copt {
            None => {
                return Err(ErrNo::NotFound);
            },
            Some(c) => c,
        };
        let ghost cdv = c.deep_view();
        proof {
            if cdv.len() > 0 {
                assert(cdv[0] =~= c@[0]@);
            }
            if cdv.len() > 1 {
                assert(cdv[1] =~= c@[1]@);
            }
        }
        let mut is_dir = c.len() == 0;
        let mut is_log = false;
        if c.len() == 1 {
            let ll = log_lit();
            if crate::codec::bytes_eq(c[0].as_slice(), ll.as_slice()) {
                is_log = true;
            } else if seg_account(px, &c[0]) {
                is_dir = true;
            }
        }
        let mut is_special = false;
        if c.len() == 2 && seg_account(px, &c[0]) {
            let bl = balance_lit();
            let cl = bytecode_lit();
            if crate::codec::bytes_eq(c[1].as_slice(), bl.as_slice()) || crate::codec::bytes_eq(
                c[1].as_slice(),
                cl.as_slice(),
            ) {
                is_special = true;
            }
        }
        proof {
            assert(is_dir == is_dir_path(old(px)@, cdv));
            assert(is_log == is_log_path(cdv));
            assert(is_special == is_special_pair(old(px)@, cdv));
        }
        if is_dir || is_log || is_special {
            return Err(ErrNo::AccessDenied);
        }
        let mut own_ok = false;
        if c.len() >= 2 && crate::codec::bytes_eq(c[0].as_slice(), self.home.as_slice()) {
            own_ok = true;
            if c.len() == 2 {
                let bl = balance_lit();
                let cl = bytecode_lit();
                if crate::codec::bytes_eq(c[1].as_slice(), bl.as_slice()) || crate::codec::bytes_eq(
                    c[1].as_slice(),
                    cl.as_slice(),
                ) {
                    own_ok = false;
                }
            }
        }
        proof {
            assert(own_ok == is_own_regular(self@, cdv));
        }
        if !own_ok {
            return Err(ErrNo::NotFound);
        }
        let key = join_from(&c, 1);
        proof {
            assert(key@ == key_of(cdv));
        }
        if !px.kv_contains(key.as_slice()) {
            return Err(ErrNo::NotFound);
        }
        match px.kv_remove(key.as_slice()) {
            Some(v) => Ok(v.len() as u64),
            None => {
                proof {
                    assert(false);
                }
                Err(ErrNo::NotFound)
            },
        }
    }
}

/// The literal `log` segment.
fn log_lit() -> (r: Vec<u8>)
    ensures
        r@ == log_seg(),
{
    let r: Vec<u8> = vec![108u8, 111u8, 103u8];
    proof {
        assert(r@ =~= log_seg());
    }
    r
}

/// The literal `balance` segment.
fn balance_lit() -> (r: Vec<u8>)
    ensures
        r@ == balance_seg(),
{
    let r: Vec<u8> = vec![98u8, 97u8, 108u8, 97u8, 110u8, 99u8, 101u8];
    proof {
        assert(r@ =~= balance_seg());
    }
    r
}

/// The literal `bytecode` segment.
fn bytecode_lit() -> (r: Vec<u8>)
    ensures
        r@ == bytecode_seg(),
{
    let r: Vec<u8> = vec![98u8, 121u8, 116u8, 101u8, 99u8, 111u8, 100u8, 101u8];
    proof {
        assert(r@ =~= bytecode_seg());
    }
    r
}

/// An element-for-element copy of a byte-string list.
#[verifier::loop_isolation(false)]
pub(crate) fn copy_segs(c: &Vec<Vec<u8>>) -> (r: Vec<Vec<u8>>)
    ensures
        r.deep_view() == c.deep_view(),
{
    let mut r: Vec<Vec<u8>> = Vec::new();
    let mut i: usize = 0;
    proof {
        assert(r.deep_view() =~~= c.deep_view().subrange(0, 0));
    }
    while i < c.len()
        invariant
            i <= c@.len(),
            r.deep_view() =~~= c.deep_view().subrange(0, i as int),
        decreases c@.len() - i,
    {
        let seg = crate::codec::copy_range(c[i].as_slice(), 0, c[i].len());
        let ghost before = r.deep_view();
        r.push(seg);
        i = i + 1;
        proof {
            assert(c@[i - 1]@ =~= c@[i - 1]@.subrange(0, c@[i - 1]@.len() as int));
            assert(seg@ =~= c.deep_view()[i - 1]);
            assert(r.deep_view() =~~= before.push(seg@));
            assert(r.deep_view() =~~= c.deep_view().subrange(0, i as int));
        }
    }
    proof {
        assert(c.deep_view().subrange(0, c@.len() as int) =~~= c.deep_view());
    }
    r
}

proof fn lemma_join_push(segs: Seq<Seq<u8>>, x: Seq<u8>)
    requires
        segs.len() >= 1,
    ensures
        join_segs(segs.push(x)) == join_segs(segs) + seq![47u8] + x,
    decreases segs.len(),
{
    let p = segs.push(x);
    if segs.len() == 1 {
        assert(p.subrange(1, 2) =~~= seq![x]);
        assert(join_segs(p.subrange(1, 2)) == x);
        assert(join_segs(p) =~= segs[0] + seq![47u8] + x);
        assert(join_segs(segs) == segs[0]);
    } else {
        assert(p.subrange(1, p.len() as int) =~~= segs.subrange(1, segs.len() as int).push(x));
        lemma_join_push(segs.subrange(1, segs.len() as int), x);
        assert(join_segs(p) =~= join_segs(segs) + seq![47u8] + x);
    }
}

/// The storage key under the home: the segments from `start` joined
/// with `/`.
#[verifier::loop_isolation(false)]
fn join_from(c: &Vec<Vec<u8>>, start: usize) -> (r: Vec<u8>)
    requires
        start < c@.len(),
    ensures
        r@ == join_segs(c.deep_view().subrange(start as int, c.deep_view().len() as int)),
{
    let n = c.len();
    let mut r = crate::codec::copy_range(c[start].as_slice(), 0, c[start].len());
    let mut j: usize = start + 1;
    proof {
        assert(c@[start as int]@ =~= c@[start as int]@.subrange(
            0,
            c@[start as int]@.len() as int,
        ));
        assert(c.deep_view().subrange(start as int, start + 1) =~~= seq![
            c.deep_view()[start as int],
        ]);
        assert(r@ =~= join_segs(c.deep_view().subrange(start as int, start + 1)));
    }
    while j < n
        invariant
            n == c@.len(),
            start < j <= c@.len(),
            r@ =~= join_segs(c.deep_view().subrange(start as int, j as int)),
        decreases c@.len() - j,
    {
        r.push(47);
        let mut seg = crate::codec::copy_range(c[j].as_slice(), 0, c[j].len());
        r.append(&mut seg);
        j = j + 1;
        proof {
            let dv = c.deep_view();
            assert(c@[j - 1]@ =~= c@[j - 1]@.subrange(0, c@[j - 1]@.len() as int));
            let pre = dv.subrange(start as int, j - 1);
            lemma_join_push(pre, dv[j - 1]);
            assert(dv.subrange(start as int, j as int) =~~= pre.push(dv[j - 1]));
            assert(r@ =~= join_segs(dv.subrange(start as int, j as int)));
        }
    }
    r
}

proof fn lemma_sum_lens_push(bufs: Seq<Seq<u8>>, b: Seq<u8>)
    ensures
        sum_lens(bufs.push(b)) == sum_lens(bufs) + b.len(),
    decreases bufs.len(),
{
    if bufs.len() == 0 {
        assert(bufs.push(b).subrange(1, 1) =~~= Seq::<Seq<u8>>::empty());
        assert(sum_lens(bufs.push(b)) == b.len() + sum_lens(bufs.push(b).subrange(1, 1)));
    } else {
        assert(bufs.push(b).subrange(1, bufs.len() as int + 1) =~~= bufs.subrange(
            1,
            bufs.len() as int,
        ).push(b));
        lemma_sum_lens_push(bufs.subrange(1, bufs.len() as int), b);
        assert(sum_lens(bufs.push(b)) == bufs.push(b)[0].len() + sum_lens(
            bufs.push(b).subrange(1, bufs.len() as int + 1),
        ));
    }
}

} // verus!
