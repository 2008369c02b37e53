//! An in-memory chain for exercising the filesystem layer: blocks of
//! transactions over an account map, and the decision rules of a nested
//! call.

use vstd::prelude::*;

use crate::state::{AccountMap, Account, AccountV, PendingTransaction, PtxV};
use crate::types::{Address, Event, EventV};

verus! {

/// One call frame of a transaction.
pub struct Frame {
    pub caller: Address,
    pub callee: Address,
    pub input: Vec<u8>,
    pub gas: u128,
    pub ret_buf: Vec<u8>,
    pub err_buf: Vec<u8>,
}

impl Default for Frame {
    /// The all-empty frame.
    fn default() -> (r: Frame)
        ensures
            r.caller@ =~= Seq::new(20, |i: int| 0u8),
            r.callee@ =~= Seq::new(20, |i: int| 0u8),
            r.input@ == Seq::<u8>::empty(),
            r.gas == 0,
            r.ret_buf@ == Seq::<u8>::empty(),
            r.err_buf@ == Seq::<u8>::empty(),
    {
        Frame {
            caller: Address([0u8; 20]),
            callee: Address([0u8; 20]),
            input: Vec::new(),
            gas: 0,
            ret_buf: Vec::new(),
            err_buf: Vec::new(),
        }
    }
}

/// One raw log entry recorded by a transaction.
pub struct Log {
    pub topics: Vec<Vec<u8>>,
    pub data: Vec<u8>,
}

/// One transaction: its state snapshot, its call stack, and what it
/// logged.
pub struct Transaction {
    pub state: AccountMap,
    pub call_stack: Vec<Frame>,
    pub logs: Vec<Log>,
}

impl Transaction {
    /// The call stack is never empty.
    pub open spec fn wf(&self) -> bool {
        self.call_stack@.len() >= 1
    }

    /// A fresh transaction over a copy of `init_state`, with one frame.
    pub fn new(init_frame: Frame, init_state: &AccountMap) -> (r: Transaction)
        ensures
            r.wf(),
            r.state@ == init_state@,
            r.call_stack@.len() == 1,
            r.logs@.len() == 0,
    {
        let mut call_stack: Vec<Frame> = Vec::new();
        call_stack.push(init_frame);
        Transaction { state: init_state.duplicate(), call_stack, logs: Vec::new() }
    }

    /// The transaction's state snapshot.
    pub fn state(&self) -> (r: &AccountMap)
        ensures
            r@ == self.state@,
    {
        &self.state
    }

    /// The account the innermost frame executes as, if it exists.
    pub fn current_account(&self) -> (r: Option<&Account>)
        requires
            self.wf(),
        ensures
            match r {
                Some(a) => self.state@.contains_key(
                    self.call_stack@.last().callee@,
                ) && a@ == self.state@[self.call_stack@.last().callee@],
                None => !self.state@.contains_key(self.call_stack@.last().callee@),
            },
    {
        let callee = crate::state::addr_to_vec(&self.current_frame().callee);
        self.state.get(callee.as_slice())
    }

    /// The innermost call frame.
    pub fn current_frame(&self) -> (r: &Frame)
        requires
            self.wf(),
        ensures
            r == self.call_stack@.last(),
    {
        let n = self.call_stack.len();
        &self.call_stack[n - 1]
    }

    /// The innermost call frame, for writing.
    pub fn current_frame_mut(&mut self) -> (r: &mut Frame)
        requires
            old(self).wf(),
        ensures
            *r == old(self).call_stack@.last(),
            final(self).call_stack@ == old(self).call_stack@.update(
                old(self).call_stack@.len() - 1,
                *final(r),
            ),
            final(self).state == old(self).state,
            final(self).logs == old(self).logs,
            final(self).wf(),
    {
        let n = self.call_stack.len();
        &mut self.call_stack[n - 1]
    }

    /// Record one raw log entry.
    pub fn log(&mut self, topics: Vec<Vec<u8>>, data: Vec<u8>)
        ensures
            final(self).logs@ == old(self).logs@.push(Log { topics, data }),
            final(self).state == old(self).state,
            final(self).call_stack == old(self).call_stack,
    {
        self.logs.push(Log { topics, data });
    }
}

/// One block: the state it started from and the transactions in it.
pub struct Block {
    pub base_state: AccountMap,
    pub transactions: Vec<Transaction>,
}

impl Block {
    /// Every transaction in the block is well-formed.
    pub open spec fn wf(&self) -> bool {
        forall|i: int| 0 <= i < self.transactions@.len() ==> (#[trigger] self.transactions@[i]).wf()
    }

    /// Record a fresh transaction against the block's current state.
    pub fn transact(
        &mut self,
        caller: Address,
        callee: Address,
        gas: u128,
        method: String,
        input: Vec<u8>,
    )
        requires
            old(self).wf(),
        ensures
            final(self).wf(),
            final(self).transactions@.len() == old(self).transactions@.len() + 1,
            final(self).transactions@.last().state@ == old(self).state_view(),
            final(self).transactions@.last().call_stack@.len() == 1,
            final(self).base_state == old(self).base_state,
    {
        let init_frame = Frame {
            caller,
            callee,
            gas,
            input,
            ret_buf: Vec::new(),
            err_buf: Vec::new(),
        };
        let st = self.state().duplicate();
        let tx = Transaction::new(init_frame, &st);
        self.transactions.push(tx);
    }

    /// The state the block's next transaction would start from.
    pub open spec fn state_view(&self) -> Map<Seq<u8>, AccountV> {
        if self.transactions@.len() > 0 {
            self.transactions@.last().state@
        } else {
            self.base_state@
        }
    }

    /// The current transaction, if the block holds one.
    pub fn current_tx(&self) -> (r: Option<&Transaction>)
        ensures
            match r {
                Some(tx) => self.transactions@.len() > 0 && tx == self.transactions@.last(),
                None => self.transactions@.len() == 0,
            },
    {
        let n = self.transactions.len();
        if n == 0 {
            None
        } else {
            Some(&self.transactions[n - 1])
        }
    }

    /// The block's current state: the last transaction's, or the state
    /// the block started from.
    pub fn state(&self) -> (r: &AccountMap)
        ensures
            r@ == self.state_view(),
    {
        let n = self.transactions.len();
        if n == 0 {
            &self.base_state
        } else {
            &self.transactions[n - 1].state
        }
    }
}

/// The chain: a non-empty list of blocks.
pub struct Blockchain {
    pub blocks: Vec<Block>,
}

impl Blockchain {
    /// There is always at least one block, and all blocks are
    /// well-formed.
    pub open spec fn wf(&self) -> bool {
        self.blocks@.len() >= 1 && forall|i: int|
            0 <= i < self.blocks@.len() ==> (#[trigger] self.blocks@[i]).wf()
    }

    /// A chain whose genesis block carries `genesis_state`, with one
    /// empty block on top ready for transactions.
    pub fn new(genesis_state: AccountMap) -> (r: Blockchain)
        ensures
            r.wf(),
            r.blocks@.len() == 2,
            r.blocks@.last().state_view() == genesis_state@,
    {
        let top = Block { base_state: genesis_state.duplicate(), transactions: Vec::new() };
        let genesis = Block { base_state: genesis_state, transactions: Vec::new() };
        let mut blocks: Vec<Block> = Vec::new();
        blocks.push(genesis);
        blocks.push(top);
        Blockchain { blocks }
    }

    /// The newest block.
    pub fn last_block(&self) -> (r: &Block)
        requires
            self.wf(),
        ensures
            r == self.blocks@.last(),
    {
        let n = self.blocks.len();
        &self.blocks[n - 1]
    }

    /// The newest block, for writing.
    pub fn last_block_mut(&mut self) -> (r: &mut Block)
        requires
            old(self).wf(),
        ensures
            *r == old(self).blocks@.last(),
            final(self).blocks@ == old(self).blocks@.update(
                old(self).blocks@.len() - 1,
                *final(r),
            ),
    {
        let n = self.blocks.len();
        &mut self.blocks[n - 1]
    }

    /// The chain's current state.
    pub fn current_state(&self) -> (r: &AccountMap)
        requires
            self.wf(),
        ensures
            r@ == self.blocks@.last().state_view(),
    {
        self.last_block().state()
    }

    /// The current transaction of the newest block, if there is one.
    pub fn current_tx(&self) -> (r: Option<&Transaction>)
        requires
            self.wf(),
        ensures
            match r {
                Some(tx) => self.blocks@.last().transactions@.len() > 0 && tx == self.blocks@.last().transactions@.last(),
                None => self.blocks@.last().transactions@.len() == 0,
            },
    {
        self.last_block().current_tx()
    }
}

/// How a nested call ended.
#[derive(Clone, Copy, Debug, PartialEq, Eq, Structural)]
pub enum TransactionOutcome {
    Success,
    InsufficientGas,
    InvalidCallee,
    InsufficientFunds,
    Aborted,
}

/// What a completed nested call reports back.
pub struct Receipt {
    pub caller: Address,
    pub callee: Address,
    pub value: u128,
    pub output: Vec<u8>,
    pub events: Vec<Event>,
    pub outcome: TransactionOutcome,
}

impl Receipt {
    /// Whether the call's effects were thrown away.
    pub fn reverted(&self) -> (r: bool)
        ensures
            r == !(self.outcome == TransactionOutcome::Success),
    {
        !matches!(self.outcome, TransactionOutcome::Success)
    }
}

impl PendingTransaction {
    /// Decide whether a nested call may start and, where it may, build
    /// its pending transaction: gas is charged, the callee must exist,
    /// and the transferred value moves from caller to callee.
    pub fn transact_begin(&self, callee: Address, value: u128, input: Vec<u8>) -> (r: Result<
        PendingTransaction,
        TransactionOutcome,
    >)
        requires
            self.wf(),
            self@.state.contains_key(callee@) ==> self@.state[callee@].balance + value
                <= u128::MAX,
        ensures
            self@.gas_left < self@.base_gas ==> r == Err::<PendingTransaction, TransactionOutcome>(
                TransactionOutcome::InsufficientGas,
            ),
            self@.gas_left >= self@.base_gas && !self@.state.contains_key(callee@) ==> r == Err::<
                PendingTransaction,
                TransactionOutcome,
            >(TransactionOutcome::InvalidCallee),
            self@.gas_left >= self@.base_gas && self@.state.contains_key(callee@) && self@.state[self@.callee].balance
                < value ==> r == Err::<PendingTransaction, TransactionOutcome>(
                TransactionOutcome::InsufficientFunds,
            ),
            self@.gas_left >= self@.base_gas && self@.state.contains_key(callee@) && self@.state[self@.callee].balance
                >= value ==> match r {
                Ok(sub) => {
                    let debited = AccountV {
                        balance: (self@.state[self@.callee].balance - value) as u128,
                        ..self@.state[self@.callee]
                    };
                    let st1 = self@.state.insert(self@.callee, debited);
                    let credited = AccountV {
                        balance: (st1[callee@].balance + value) as u128,
                        ..st1[callee@]
                    };
                    sub@ == (PtxV {
                        caller: self@.callee,
                        callee: callee@,
                        value,
                        input: input@,
                        output: Seq::<u8>::empty(),
                        state: st1.insert(callee@, credited),
                        events: Seq::<EventV>::empty(),
                        aborted: false,
                        base_gas: self@.base_gas,
                        gas_left: (self@.gas_left - self@.base_gas) as u64,
                    }) && sub.wf()
                },
                Err(_) => false,
            },
    {
        if self.gas_left < self.base_gas {
            return Err(TransactionOutcome::InsufficientGas);
        }
        let callee_key = crate::state::addr_to_vec(&callee);
        if !self.state.contains_key(callee_key.as_slice()) {
            return Err(TransactionOutcome::InvalidCallee);
        }
        let caller_key = crate::state::addr_to_vec(&self.callee);
        let mut caller_acct = match self.state.get(caller_key.as_slice()) {
            Some(a) => a.duplicate(),
            None => {
                proof {
                    assert(false);
                }
                Account::new(0)
            },
        };
        if caller_acct.balance < value {
            return Err(TransactionOutcome::InsufficientFunds);
        }
        let mut st = self.state.duplicate();
        caller_acct.balance = caller_acct.balance - value;
        st.insert(caller_key, caller_acct);
        let mut callee_acct = match st.get(callee_key.as_slice()) {
            Some(a) => a.duplicate(),
            None => {
                proof {
                    assert(false);
                }
                Account::new(0)
            },
        };
        callee_acct.balance = callee_acct.balance + value;
        st.insert(callee_key, callee_acct);
        let caller_addr = self.callee;
        let sub = PendingTransaction {
            caller: caller_addr,
            callee,
            value,
            input,
            output: Vec::new(),
            state: st,
            events: Vec::new(),
            aborted: false,
            base_gas: self.base_gas,
            gas_left: self.gas_left - self.base_gas,
        };
        proof {
            assert(sub.events.deep_view() =~= Seq::<EventV>::empty());
            let debited = AccountV {
                balance: (self@.state[self@.callee].balance - value) as u128,
                ..self@.state[self@.callee]
            };
            let st1 = self@.state.insert(self@.callee, debited);
            let credited = AccountV {
                balance: (st1[callee@].balance + value) as u128,
                ..st1[callee@]
            };
            assert(sub@.state =~= st1.insert(callee@, credited)) by {
                if self@.callee == callee@ {
                    assert(sub@.state =~= st1.insert(callee@, credited));
                }
            }
            assert(sub@ =~= (PtxV {
                caller: self@.callee,
                callee: callee@,
                value,
                input: sub.input@,
                output: Seq::<u8>::empty(),
                state: st1.insert(callee@, credited),
                events: Seq::<EventV>::empty(),
                aborted: false,
                base_gas: self@.base_gas,
                gas_left: (self@.gas_left - self@.base_gas) as u64,
            }));
        }
        Ok(sub)
    }

    /// Settle a finished nested call: a nonzero status aborts it; a
    /// reverted call keeps no state and no events, a successful one
    /// commits both into this transaction.
    pub fn transact_finish(&mut self, sub: PendingTransaction, errno: u16) -> (r: Receipt)
        ensures
            r.outcome == if errno != 0 {
                TransactionOutcome::Aborted
            } else if sub@.aborted {
                TransactionOutcome::Aborted
            } else {
                TransactionOutcome::Success
            },
            r.output@ == sub@.output,
            r.outcome == TransactionOutcome::Success ==> (final(self)@.state == sub@.state
                && final(self)@.events == old(self)@.events + sub@.events && r.events.deep_view()
                == sub@.events),
            r.outcome != TransactionOutcome::Success ==> final(self)@ == old(self)@
                && r.events@.len() == 0,
    {
        let mut sub = sub;
        let outcome = if errno != 0 || sub.aborted {
            TransactionOutcome::Aborted
        } else {
            TransactionOutcome::Success
        };
        let caller = sub.caller;
        let callee = sub.callee;
        let value = sub.value;
        if matches!(outcome, TransactionOutcome::Success) {
            let ghost before = self.events.deep_view();
            let mut revents: Vec<Event> = Vec::new();
            let mut i: usize = 0;
            let n = sub.events.len();
            while i < n
                invariant
                    n == sub.events@.len(),
                    i <= n,
                    revents.deep_view() =~~= sub.events.deep_view().subrange(0, i as int),
                decreases n - i,
            {
                let ev = Event {
                    emitter: sub.events[i].emitter,
                    topics: crate::bcfs::copy_segs(&sub.events[i].topics),
                    data: crate::codec::copy_range(
                        sub.events[i].data.as_slice(),
                        0,
                        sub.events[i].data.len(),
                    ),
                };
                proof {
                    assert(sub.events@[i as int].data@ =~= sub.events@[i as int].data@.subrange(
                        0,
                        sub.events@[i as int].data@.len() as int,
                    ));
                    assert(ev@ =~~= sub.events.deep_view()[i as int]);
                }
                let ghost pre = revents.deep_view();
                revents.push(ev);
                i = i + 1;
                proof {
                    assert(revents.deep_view() =~~= pre.push(ev@));
                    assert(revents.deep_view() =~~= sub.events.deep_view().subrange(0, i as int));
                }
            }
            proof {
                assert(sub.events.deep_view().subrange(0, n as int) =~~= sub.events.deep_view());
            }
            let mut sub_events = sub.events;
            self.state = sub.state;
            self.events.append(&mut sub_events);
            proof {
                assert(final(self)@.events =~= before + sub@.events);
                assert(final(self)@.state == sub@.state);
            }
            Receipt { caller, callee, value, output: sub.output, events: revents, outcome }
        } else {
            Receipt { caller, callee, value, output: sub.output, events: Vec::new(), outcome }
        }
    }
}

} // verus!
