//! Per-transaction blockchain state: a byte-keyed map type, accounts
//! with balance, code and key/value storage, and the pending
//! transaction that filesystem operations read and write.

use vstd::prelude::*;

use crate::types::Address;

verus! {

/// One key/value entry.
struct MapEntry<V> {
    key: Vec<u8>,
    val: V,
}

/// A map from byte strings to values, held as a vector of entries with
/// pairwise distinct keys.
pub struct MapVec<V> {
    entries: Vec<MapEntry<V>>,
}

/// The map described by a sequence of entries, later entries winning.
spec fn map_of<V: View>(s: Seq<MapEntry<V>>) -> Map<Seq<u8>, V::V>
    decreases s.len(),
{
    if s.len() == 0 {
        Map::empty()
    } else {
        map_of(s.drop_last()).insert(s.last().key@, s.last().val@)
    }
}

spec fn unique_keys<V>(s: Seq<MapEntry<V>>) -> bool {
    forall|i: int, j: int| 0 <= i < j < s.len() ==> s[i].key@ != s[j].key@
}

impl<V: View> View for MapVec<V> {
    type V = Map<Seq<u8>, V::V>;

    closed spec fn view(&self) -> Map<Seq<u8>, V::V> {
        map_of(self.entries@)
    }
}

proof fn lemma_map_of_props<V: View>(s: Seq<MapEntry<V>>)
    ensures
        forall|k: Seq<u8>|
            map_of(s).contains_key(k) <==> (exists|i: int|
                0 <= i < s.len() && (#[trigger] s[i]).key@ == k),
        unique_keys(s) ==> forall|i: int|
            0 <= i < s.len() ==> map_of(s)[(#[trigger] s[i]).key@] == s[i].val@,
    decreases s.len(),
{
    if s.len() > 0 {
        let pre = s.drop_last();
        lemma_map_of_props(pre);
        assert(map_of(s) == map_of(pre).insert(s.last().key@, s.last().val@));
        assert forall|k: Seq<u8>| map_of(s).contains_key(k) implies (exists|i: int|
            0 <= i < s.len() && (#[trigger] s[i]).key@ == k) by {
            if k == s.last().key@ {
                assert(s[s.len() - 1].key@ == k);
            } else {
                assert(map_of(pre).contains_key(k));
                let i = choose|i: int| 0 <= i < pre.len() && (#[trigger] pre[i]).key@ == k;
                assert(s[i].key@ == k);
            }
        }
        assert forall|i: int| 0 <= i < s.len() && (exists|j: int|
            0 <= j < s.len() && (#[trigger] s[j]).key@ == s[i].key@) implies map_of(
            s,
        ).contains_key(s[i].key@) by {
            if i < s.len() - 1 {
                assert(pre[i].key@ == s[i].key@);
            }
        }
        if unique_keys(s) {
            assert(unique_keys(pre)) by {
                assert(forall|i: int, j: int|
                    0 <= i < j < pre.len() ==> pre[i].key@ == s[i].key@ && pre[j].key@
                        == s[j].key@);
            }
            assert forall|i: int| 0 <= i < s.len() implies map_of(s)[(#[trigger] s[i]).key@]
                == s[i].val@ by {
                if i < s.len() - 1 {
                    assert(s[i].key@ != s.last().key@);
                    assert(pre[i].key@ == s[i].key@ && pre[i].val@ == s[i].val@);
                }
            }
        }
    }
}

impl<V> MapVec<V> {
    #[verifier::type_invariant]
    spec fn wf(self) -> bool {
        unique_keys(self.entries@)
    }
}

impl<V: View> MapVec<V> {
    /// The empty map.
    pub fn new() -> (r: MapVec<V>)
        ensures
            r@ == Map::<Seq<u8>, V::V>::empty(),
    {
        MapVec { entries: Vec::new() }
    }

    /// Whether `key` is present.
    pub fn contains_key(&self, key: &[u8]) -> (r: bool)
        ensures
            r == self@.contains_key(key@),
    {
        self.get(key).is_some()
    }

    /// The value under `key`, if any.
    pub fn get(&self, key: &[u8]) -> (r: Option<&V>)
        ensures
            match r {
                Some(v) => self@.contains_key(key@) && v@ == self@[key@],
                None => !self@.contains_key(key@),
            },
    {
        proof {
            use_type_invariant(&*self);
            lemma_map_of_props(self.entries@);
        }
        let n = self.entries.len();
        let mut i: usize = 0;
        while i < n
            invariant
                n == self.entries@.len(),
                i <= n,
                forall|j: int| 0 <= j < i ==> (#[trigger] self.entries@[j]).key@ != key@,
            decreases n - i,
        {
            if crate::codec::bytes_eq(self.entries[i].key.as_slice(), key) {
                proof {
                    use_type_invariant(&*self);
                    lemma_map_of_props(self.entries@);
                }
                return Some(&self.entries[i].val);
            }
            i = i + 1;
        }
        proof {
            if self@.contains_key(key@) {
                lemma_map_of_props(self.entries@);
                let j = choose|j: int|
                    0 <= j < self.entries@.len() && (#[trigger] self.entries@[j]).key@ == key@;
                assert(false);
            }
        }
        None
    }

    /// Remove `key`, returning the value that was under it.
    pub fn remove(&mut self, key: &[u8]) -> (r: Option<V>)
        ensures
            final(self)@ == old(self)@.remove(key@),
            match r {
                Some(v) => old(self)@.contains_key(key@) && v@ == old(self)@[key@],
                None => !old(self)@.contains_key(key@),
            },
    {
        proof {
            use_type_invariant(&*self);
            lemma_map_of_props(self.entries@);
        }
        let ghost s0 = self.entries@;
        let n = self.entries.len();
        let mut i: usize = 0;
        let mut at: Option<usize> = None;
        while i < n
            invariant
                n == self.entries@.len(),
                i <= n,
                self.entries@ == s0,
                match at {
                    Some(j) => j < i && s0[j as int].key@ == key@,
                    None => forall|j: int| 0 <= j < i ==> (#[trigger] s0[j]).key@ != key@,
                },
            decreases n - i,
        {
            if at.is_none() && crate::codec::bytes_eq(self.entries[i].key.as_slice(), key) {
                at = Some(i);
            }
            i = i + 1;
        }
        match at {
            None => {
                proof {
                    if old(self)@.contains_key(key@) {
                        let j = choose|j: int|
                            0 <= j < s0.len() && (#[trigger] s0[j]).key@ == key@;
                        assert(false);
                    }
                    assert(old(self)@.remove(key@) =~= old(self)@);
                }
                None
            },
            Some(j) => {
                let mut entries: Vec<MapEntry<V>> = Vec::new();
                core::mem::swap(&mut entries, &mut self.entries);
                let e = entries.remove(j);
                proof {
                    lemma_map_of_remove(s0, j as int);
                }
                core::mem::swap(&mut entries, &mut self.entries);
                Some(e.val)
            },
        }
    }

    /// Insert `val` under `key`, replacing what was there.
    pub fn insert(&mut self, key: Vec<u8>, val: V)
        ensures
            final(self)@ == old(self)@.insert(key@, val@),
    {
        let _ = self.remove(key.as_slice());
        proof {
            use_type_invariant(&*self);
            lemma_map_of_props(self.entries@);
            if self@.contains_key(key@) {
                let j = choose|j: int|
                    0 <= j < self.entries@.len() && (#[trigger] self.entries@[j]).key@ == key@;
                assert(false);
            }
        }
        let ghost s1 = self.entries@;
        let ghost kview = key@;
        let mut entries: Vec<MapEntry<V>> = Vec::new();
        core::mem::swap(&mut entries, &mut self.entries);
        entries.push(MapEntry { key, val });
        proof {
            assert(entries@.drop_last() =~= s1);
            lemma_map_of_props(s1);
            assert(forall|j: int|
                0 <= j < s1.len() ==> (#[trigger] s1[j]).key@ != entries@.last().key@);
        }
        core::mem::swap(&mut entries, &mut self.entries);
        proof {
            assert(final(self)@ =~= old(self)@.insert(kview, val@));
        }
    }
}

proof fn lemma_map_of_remove<V: View>(s: Seq<MapEntry<V>>, at: int)
    requires
        unique_keys(s),
        0 <= at < s.len(),
    ensures
        map_of(s.remove(at)) == map_of(s).remove(s[at].key@),
        unique_keys(s.remove(at)),
    decreases s.len(),
{
    let r = s.remove(at);
    assert(unique_keys(r)) by {
        assert forall|i: int, j: int| 0 <= i < j < r.len() implies r[i].key@ != r[j].key@ by {
            let i0 = if i < at {
                i
            } else {
                i + 1
            };
            let j0 = if j < at {
                j
            } else {
                j + 1
            };
            assert(r[i] == s[i0] && r[j] == s[j0]);
        }
    }
    lemma_map_of_props(s);
    lemma_map_of_props(r);
    assert forall|k: Seq<u8>| true implies #[trigger] map_of(r).contains_key(k) == map_of(
        s,
    ).remove(s[at].key@).contains_key(k) by {
        if k == s[at].key@ {
            if map_of(r).contains_key(k) {
                let i = choose|i: int| 0 <= i < r.len() && (#[trigger] r[i]).key@ == k;
                let i0 = if i < at {
                    i
                } else {
                    i + 1
                };
                assert(r[i] == s[i0]);
                assert(false);
            }
        } else {
            if map_of(s).contains_key(k) {
                let i = choose|i: int| 0 <= i < s.len() && (#[trigger] s[i]).key@ == k;
                if i < at {
                    assert(r[i].key@ == k);
                } else {
                    assert(i != at);
                    assert(r[i - 1].key@ == k);
                }
            }
            if map_of(r).contains_key(k) {
                let i = choose|i: int| 0 <= i < r.len() && (#[trigger] r[i]).key@ == k;
                let i0 = if i < at {
                    i
                } else {
                    i + 1
                };
                assert(r[i] == s[i0]);
            }
        }
    }
    assert forall|k: Seq<u8>| map_of(r).contains_key(k) implies map_of(r)[k] == map_of(s).remove(
        s[at].key@,
    )[k] by {
        let i = choose|i: int| 0 <= i < r.len() && (#[trigger] r[i]).key@ == k;
        let i0 = if i < at {
            i
        } else {
            i + 1
        };
        assert(r[i] == s[i0]);
        assert(map_of(r)[k] == r[i].val@);
        assert(map_of(s)[k] == s[i0].val@);
    }
    assert(map_of(s.remove(at)) =~= map_of(s).remove(s[at].key@));
}

/// A file's backing store: the account's key/value map.
pub type Storage = MapVec<Vec<u8>>;

impl MapVec<Vec<u8>> {
    /// An element-for-element copy.
    pub fn duplicate(&self) -> (r: Storage)
        ensures
            r@ == self@,
    {
        proof {
            use_type_invariant(&*self);
        }
        let mut r: Storage = MapVec::new();
        let n = self.entries.len();
        let mut i: usize = 0;
        while i < n
            invariant
                n == self.entries@.len(),
                i <= n,
                unique_keys(self.entries@),
                r@ =~= map_of(self.entries@.subrange(0, i as int)),
            decreases n - i,
        {
            let k = crate::codec::copy_range(self.entries[i].key.as_slice(), 0, self.entries[i].key.len());
            let v = crate::codec::copy_range(self.entries[i].val.as_slice(), 0, self.entries[i].val.len());
            proof {
                assert(self.entries[i as int].key@ =~= self.entries[i as int].key@.subrange(
                    0,
                    self.entries[i as int].key@.len() as int,
                ));
                assert(self.entries[i as int].val@ =~= self.entries[i as int].val@.subrange(
                    0,
                    self.entries[i as int].val@.len() as int,
                ));
            }
            r.insert(k, v);
            i = i + 1;
            proof {
                let sub = self.entries@.subrange(0, i as int);
                assert(sub.drop_last() =~= self.entries@.subrange(0, i - 1));
                assert(r@ =~= map_of(sub));
            }
        }
        proof {
            assert(self.entries@.subrange(0, n as int) =~= self.entries@);
        }
        r
    }
}

/// One account: its balance, its code, and its key/value storage.
pub struct Account {
    pub balance: u128,
    pub code: Vec<u8>,
    pub storage: Storage,
    pub expiry: Option<u64>,
}

/// The mathematical shape of an account.
#[verifier::ext_equal]
pub ghost struct AccountV {
    pub balance: u128,
    pub code: Seq<u8>,
    pub storage: Map<Seq<u8>, Seq<u8>>,
    pub expiry: Option<u64>,
}

impl View for Account {
    type V = AccountV;

    open spec fn view(&self) -> AccountV {
        AccountV {
            balance: self.balance,
            code: self.code@,
            storage: self.storage@,
            expiry: self.expiry,
        }
    }
}

impl Account {
    /// A fresh account holding `balance`, with no code and no storage.
    pub fn new(balance: u128) -> (r: Account)
        ensures
            r@ == (AccountV {
                balance,
                code: Seq::<u8>::empty(),
                storage: Map::<Seq<u8>, Seq<u8>>::empty(),
                expiry: None,
            }),
    {
        let r = Account { balance, code: Vec::new(), storage: MapVec::new(), expiry: None };
        proof {
            assert(r@ =~= (AccountV {
                balance,
                code: Seq::<u8>::empty(),
                storage: Map::<Seq<u8>, Seq<u8>>::empty(),
                expiry: None,
            }));
        }
        r
    }

    /// A field-for-field copy.
    pub fn duplicate(&self) -> (r: Account)
        ensures
            r@ == self@,
    {
        let r = Account {
            balance: self.balance,
            code: crate::codec::copy_range(self.code.as_slice(), 0, self.code.len()),
            storage: self.storage.duplicate(),
            expiry: match self.expiry {
                Some(e) => Some(e),
                None => None,
            },
        };
        proof {
            assert(self.code@ =~= self.code@.subrange(0, self.code@.len() as int));
            assert(r@ =~= self@);
        }
        r
    }
}

/// The per-transaction account table, keyed by the twenty address bytes.
pub type AccountMap = MapVec<Account>;

impl MapVec<Account> {
    /// An element-for-element copy.
    pub fn duplicate(&self) -> (r: AccountMap)
        ensures
            r@ == self@,
    {
        proof {
            use_type_invariant(&*self);
        }
        let mut r: AccountMap = MapVec::new();
        let n = self.entries.len();
        let mut i: usize = 0;
        while i < n
            invariant
                n == self.entries@.len(),
                i <= n,
                unique_keys(self.entries@),
                r@ =~= map_of(self.entries@.subrange(0, i as int)),
            decreases n - i,
        {
            let k = crate::codec::copy_range(self.entries[i].key.as_slice(), 0, self.entries[i].key.len());
            let v = self.entries[i].val.duplicate();
            proof {
                assert(self.entries[i as int].key@ =~= self.entries[i as int].key@.subrange(
                    0,
                    self.entries[i as int].key@.len() as int,
                ));
            }
            r.insert(k, v);
            i = i + 1;
            proof {
                let sub = self.entries@.subrange(0, i as int);
                assert(sub.drop_last() =~= self.entries@.subrange(0, i - 1));
                assert(r@ =~= map_of(sub));
            }
        }
        proof {
            assert(self.entries@.subrange(0, n as int) =~= self.entries@);
        }
        r
    }
}

/// The address's twenty bytes as a vector, for use as a map key.
pub fn addr_to_vec(a: &Address) -> (r: Vec<u8>)
    ensures
        r@ == a@,
{
    let s = vstd::array::array_as_slice(&a.0);
    let r = crate::codec::copy_range(s, 0, 20);
    proof {
        assert(r@ =~= a@);
    }
    r
}

} // verus!

use vstd::prelude::*;
use crate::codec::pad32;
use crate::types::{AccountMeta, Event, EventV};

verus! {

/// The mathematical shape of a pending transaction.
#[verifier::ext_equal]
pub ghost struct PtxV {
    pub caller: Seq<u8>,
    pub callee: Seq<u8>,
    pub value: u128,
    pub input: Seq<u8>,
    pub output: Seq<u8>,
    pub state: Map<Seq<u8>, AccountV>,
    pub events: Seq<EventV>,
    pub aborted: bool,
    pub base_gas: u64,
    pub gas_left: u64,
}

impl PtxV {
    /// The callee account exists.
    pub open spec fn wf(self) -> bool {
        self.state.contains_key(self.callee)
    }

    /// The callee's key/value storage.
    pub open spec fn storage(self) -> Map<Seq<u8>, Seq<u8>> {
        self.state[self.callee].storage
    }

    /// The state after writing `v` under `k` in the callee's storage.
    pub open spec fn kv_insert(self, k: Seq<u8>, v: Seq<u8>) -> PtxV {
        let acct = self.state[self.callee];
        PtxV {
            state: self.state.insert(
                self.callee,
                AccountV { storage: acct.storage.insert(k, v), ..acct },
            ),
            ..self
        }
    }

    /// The state after removing `k` from the callee's storage.
    pub open spec fn kv_remove(self, k: Seq<u8>) -> PtxV {
        let acct = self.state[self.callee];
        PtxV {
            state: self.state.insert(
                self.callee,
                AccountV { storage: acct.storage.remove(k), ..acct },
            ),
            ..self
        }
    }

    /// The state after appending `bytes` to the transaction's output.
    pub open spec fn append_output(self, bytes: Seq<u8>) -> PtxV {
        PtxV { output: self.output + bytes, ..self }
    }

    /// The state after emitting one event: each topic padded or cut to
    /// thirty-two bytes, the callee as emitter.
    pub open spec fn emit_event(self, topics: Seq<Seq<u8>>, data: Seq<u8>) -> PtxV {
        PtxV {
            events: self.events.push(
                EventV {
                    emitter: self.callee,
                    topics: topics.map_values(|t: Seq<u8>| pad32(t)),
                    data: data,
                },
            ),
            ..self
        }
    }
}

/// One transaction in flight: who calls whom with what, the state it
/// may read and write, and what it has produced so far.
pub struct PendingTransaction {
    pub caller: Address,
    pub callee: Address,
    pub value: u128,
    pub input: Vec<u8>,
    pub output: Vec<u8>,
    pub state: AccountMap,
    pub events: Vec<Event>,
    pub aborted: bool,
    pub base_gas: u64,
    pub gas_left: u64,
}

impl View for PendingTransaction {
    type V = PtxV;

    open spec fn view(&self) -> PtxV {
        PtxV {
            caller: self.caller@,
            callee: self.callee@,
            value: self.value,
            input: self.input@,
            output: self.output@,
            state: self.state@,
            events: self.events.deep_view(),
            aborted: self.aborted,
            base_gas: self.base_gas,
            gas_left: self.gas_left,
        }
    }
}

impl PendingTransaction {
    /// The callee account must exist in the state.
    pub open spec fn wf(&self) -> bool {
        self@.wf()
    }

    /// A fresh pending transaction over `state`.
    pub fn new(
        caller: Address,
        callee: Address,
        value: u128,
        input: Vec<u8>,
        state: AccountMap,
        base_gas: u64,
        gas_left: u64,
    ) -> (r: PendingTransaction)
        requires
            state@.contains_key(callee@),
        ensures
            r@ == (PtxV {
                caller: caller@,
                callee: callee@,
                value,
                input: input@,
                output: Seq::<u8>::empty(),
                state: state@,
                events: Seq::<EventV>::empty(),
                aborted: false,
                base_gas,
                gas_left,
            }),
            r.wf(),
    {
        let r = PendingTransaction {
            caller,
            callee,
            value,
            input,
            output: Vec::new(),
            state,
            events: Vec::new(),
            aborted: false,
            base_gas,
            gas_left,
        };
        proof {
            assert(r.events.deep_view() =~= Seq::<EventV>::empty());
            assert(r@ =~= (PtxV {
                caller: caller@,
                callee: callee@,
                value,
                input: r.input@,
                output: Seq::<u8>::empty(),
                state: r.state@,
                events: Seq::<EventV>::empty(),
                aborted: false,
                base_gas,
                gas_left,
            }));
        }
        r
    }

    /// The address this transaction executes as.
    pub fn address(&self) -> (r: &Address)
        ensures
            r@ == self@.callee,
    {
        &self.callee
    }

    /// The address that made the call.
    pub fn sender(&self) -> (r: &Address)
        ensures
            r@ == self@.caller,
    {
        &self.caller
    }

    /// The value transferred with the call.
    pub fn value(&self) -> (r: u128)
        ensures
            r == self@.value,
    {
        self.value
    }

    /// The transaction's input bytes.
    pub fn input(&self) -> (r: &Vec<u8>)
        ensures
            r@ == self@.input,
    {
        &self.input
    }

    /// The value under `key` in the callee's storage, if any.
    pub fn kv_get(&self, key: &[u8]) -> (r: Option<&Vec<u8>>)
        requires
            self.wf(),
        ensures
            match r {
                Some(v) => self@.storage().contains_key(key@) && v@ == self@.storage()[key@],
                None => !self@.storage().contains_key(key@),
            },
    {
        let callee_key = addr_to_vec(&self.callee);
        match self.state.get(callee_key.as_slice()) {
            Some(acct) => acct.storage.get(key),
            None => {
                proof {
                    assert(false);
                }
                None
            },
        }
    }

    /// Whether `key` is present in the callee's storage.
    pub fn kv_contains(&self, key: &[u8]) -> (r: bool)
        requires
            self.wf(),
        ensures
            r == self@.storage().contains_key(key@),
    {
        self.kv_get(key).is_some()
    }

    /// Write `val` under `key` in the callee's storage.
    pub fn kv_insert(&mut self, key: Vec<u8>, val: Vec<u8>)
        requires
            old(self).wf(),
        ensures
            final(self)@ == old(self)@.kv_insert(key@, val@),
            final(self).wf(),
    {
        let callee_key = addr_to_vec(&self.callee);
        let mut acct = match self.state.get(callee_key.as_slice()) {
            Some(a) => a.duplicate(),
            None => {
                proof {
                    assert(false);
                }
                Account::new(0)
            },
        };
        let ghost kview = key@;
        acct.storage.insert(key, val);
        self.state.insert(callee_key, acct);
        proof {
            assert(final(self)@ =~= old(self)@.kv_insert(kview, val@));
        }
    }

    /// Remove `key` from the callee's storage, returning what was there.
    pub fn kv_remove(&mut self, key: &[u8]) -> (r: Option<Vec<u8>>)
        requires
            old(self).wf(),
        ensures
            final(self)@ == old(self)@.kv_remove(key@),
            final(self).wf(),
            match r {
                Some(v) => old(self)@.storage().contains_key(key@) && v@ == old(
                    self,
                )@.storage()[key@],
                None => !old(self)@.storage().contains_key(key@),
            },
    {
        let callee_key = addr_to_vec(&self.callee);
        let mut acct = match self.state.get(callee_key.as_slice()) {
            Some(a) => a.duplicate(),
            None => {
                proof {
                    assert(false);
                }
                Account::new(0)
            },
        };
        let r = acct.storage.remove(key);
        self.state.insert(callee_key, acct);
        proof {
            assert(final(self)@ =~= old(self)@.kv_remove(key@));
        }
        r
    }

    /// Append `bytes` to the transaction's output.
    pub fn append_output(&mut self, bytes: &[u8])
        ensures
            final(self)@ == old(self)@.append_output(bytes@),
    {
        let mut copy = crate::codec::copy_range(bytes, 0, bytes.len());
        self.output.append(&mut copy);
        proof {
            assert(bytes@.subrange(0, bytes@.len() as int) =~= bytes@);
            assert(final(self)@ =~= old(self)@.append_output(bytes@));
        }
    }

    /// Emit one event against this transaction: each topic is padded or
    /// cut to thirty-two bytes and the callee is recorded as emitter.
    pub fn emit(&mut self, topics: &Vec<Vec<u8>>, data: &[u8])
        ensures
            final(self)@ == old(self)@.emit_event(topics.deep_view(), data@),
    {
        let mut padded: Vec<Vec<u8>> = Vec::new();
        let mut i: usize = 0;
        while i < topics.len()
            invariant
                i <= topics@.len(),
                padded.deep_view() =~= topics.deep_view().subrange(0, i as int).map_values(
                    |t: Seq<u8>| pad32(t),
                ),
            decreases topics@.len() - i,
        {
            let t = crate::codec::topic_pad32(topics[i].as_slice());
            let ghost before = padded.deep_view();
            padded.push(t);
            i = i + 1;
            proof {
                let dv = topics.deep_view();
                assert(padded.deep_view() =~~= before.push(pad32(dv[i - 1])));
                assert(dv.subrange(0, i as int).map_values(|t: Seq<u8>| pad32(t)) =~= dv.subrange(
                    0,
                    i - 1,
                ).map_values(|t: Seq<u8>| pad32(t)).push(pad32(dv[i - 1])));
            }
        }
        let data_copy = crate::codec::copy_range(data, 0, data.len());
        let ev = Event { emitter: self.callee, topics: padded, data: data_copy };
        let ghost before_events = self.events.deep_view();
        self.events.push(ev);
        proof {
            let dv = topics.deep_view();
            assert(dv.subrange(0, dv.len() as int) =~= dv);
            assert(data@.subrange(0, data@.len() as int) =~= data@);
            assert(self.events.deep_view() =~~= before_events.push(
                EventV {
                    emitter: old(self)@.callee,
                    topics: dv.map_values(|t: Seq<u8>| pad32(t)),
                    data: data@,
                },
            ));
            assert(final(self)@ =~= old(self)@.emit_event(dv, data@));
        }
    }

    /// Record failure output and mark the transaction aborted.
    pub fn err(&mut self, data: &[u8])
        ensures
            final(self)@ == (PtxV { aborted: true, ..old(self)@.append_output(data@) }),
    {
        self.append_output(data);
        self.aborted = true;
        proof {
            assert(final(self)@ =~= (PtxV { aborted: true, ..old(self)@.append_output(data@) }));
        }
    }

    /// The code of the account at `addr`, if it exists.
    pub fn code_at(&self, addr: &Address) -> (r: Option<&Vec<u8>>)
        ensures
            match r {
                Some(c) => self@.state.contains_key(addr@) && c@ == self@.state[addr@].code,
                None => !self@.state.contains_key(addr@),
            },
    {
        let key = addr_to_vec(addr);
        match self.state.get(key.as_slice()) {
            Some(acct) => Some(&acct.code),
            None => None,
        }
    }

    /// The metadata of the account at `addr`, if it exists.
    pub fn account_meta_at(&self, addr: &Address) -> (r: Option<AccountMeta>)
        ensures
            match r {
                Some(m) => self@.state.contains_key(addr@) && m.balance == self@.state[addr@].balance
                    && m.expiry == self@.state[addr@].expiry,
                None => !self@.state.contains_key(addr@),
            },
    {
        let key = addr_to_vec(addr);
        match self.state.get(key.as_slice()) {
            Some(acct) => Some(
                AccountMeta {
                    balance: acct.balance,
                    expiry: match acct.expiry {
                        Some(e) => Some(e),
                        None => None,
                    },
                },
            ),
            None => None,
        }
    }

    /// Whether an account exists at `addr`.
    pub fn account_exists(&self, addr: &Address) -> (r: bool)
        ensures
            r == self@.state.contains_key(addr@),
    {
        let key = addr_to_vec(addr);
        self.state.contains_key(key.as_slice())
    }

    /// Whether an account exists under the given address bytes.
    pub fn account_exists_key(&self, key: &[u8]) -> (r: bool)
        ensures
            r == self@.state.contains_key(key@),
    {
        self.state.contains_key(key)
    }

    /// The balance of the account under the given address bytes.
    pub fn balance_of_key(&self, key: &[u8]) -> (r: Option<u128>)
        ensures
            match r {
                Some(b) => self@.state.contains_key(key@) && b == self@.state[key@].balance,
                None => !self@.state.contains_key(key@),
            },
    {
        match self.state.get(key) {
            Some(acct) => Some(acct.balance),
            None => None,
        }
    }

    /// The code of the account under the given address bytes.
    pub fn code_of_key(&self, key: &[u8]) -> (r: Option<&Vec<u8>>)
        ensures
            match r {
                Some(c) => self@.state.contains_key(key@) && c@ == self@.state[key@].code,
                None => !self@.state.contains_key(key@),
            },
    {
        match self.state.get(key) {
            Some(acct) => Some(&acct.code),
            None => None,
        }
    }
}

} // verus!
