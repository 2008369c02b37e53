//! Blockchain-side value types: account addresses, account metadata and
//! emitted events.

use vstd::prelude::*;

verus! {

/// A twenty-byte account address.
#[derive(Clone, Copy, Debug, PartialEq, Eq, Hash)]
pub struct Address(pub [u8; 20]);

impl View for Address {
    type V = Seq<u8>;

    open spec fn view(&self) -> Seq<u8> {
        self.0@
    }
}

/// Byte-for-byte equality of two addresses.
pub fn addr_eq(a: &Address, b: &Address) -> (r: bool)
    ensures
        r <==> a@ == b@,
{
    let mut i: usize = 0;
    while i < 20
        invariant
            i <= 20,
            forall|j: int| 0 <= j < i ==> a@[j] == b@[j],
        decreases 20 - i,
    {
        if a.0[i] != b.0[i] {
            proof {
                assert(a@[i as int] != b@[i as int]);
            }
            return false;
        }
        i = i + 1;
    }
    proof {
        assert(a@ =~= b@);
    }
    true
}

/// An account's externally visible metadata: its balance and, where one
/// is set, its expiry in seconds.
#[derive(Clone, Debug, PartialEq, Eq)]
pub struct AccountMeta {
    pub balance: u128,
    pub expiry: Option<u64>,
}

/// One event emitted against a transaction: the emitting account, the
/// topic words (each exactly thirty-two bytes), and the payload.
#[derive(Clone, Debug, PartialEq, Eq)]
pub struct Event {
    pub emitter: Address,
    pub topics: Vec<Vec<u8>>,
    pub data: Vec<u8>,
}

impl Event {
    /// Every topic of an event is exactly thirty-two bytes wide.
    pub open spec fn wf(&self) -> bool {
        forall|i: int| 0 <= i < self.topics@.len() ==> (#[trigger] self.topics@[i])@.len() == 32
    }
}

/// The mathematical shape of an event.
#[verifier::ext_equal]
pub ghost struct EventV {
    pub emitter: Seq<u8>,
    pub topics: Seq<Seq<u8>>,
    pub data: Seq<u8>,
}

impl View for Event {
    type V = EventV;

    open spec fn view(&self) -> EventV {
        EventV { emitter: self.emitter@, topics: self.topics.deep_view(), data: self.data@ }
    }
}

impl DeepView for Event {
    type V = EventV;

    open spec fn deep_view(&self) -> EventV {
        self.view()
    }
}

/// A status code as the execution environment reports it.
#[derive(Clone, Copy, Debug, PartialEq, Eq, Structural)]
pub struct ExtStatusCode(pub u32);

impl ExtStatusCode {
    /// The call completed.
    pub fn success() -> (r: ExtStatusCode)
        ensures
            r.0 == 0,
    {
        ExtStatusCode(0)
    }

    /// The payer could not cover the transferred value.
    pub fn insufficient_funds() -> (r: ExtStatusCode)
        ensures
            r.0 == 1,
    {
        ExtStatusCode(1)
    }

    /// The input could not be understood.
    pub fn invalid_input() -> (r: ExtStatusCode)
        ensures
            r.0 == 2,
    {
        ExtStatusCode(2)
    }

    /// The named account does not exist.
    pub fn no_account() -> (r: ExtStatusCode)
        ensures
            r.0 == 3,
    {
        ExtStatusCode(3)
    }
}

} // verus!
