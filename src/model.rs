use vstd::prelude::*;

verus! {

/// Upper bound (exclusive) of a randomly drawn transfer amount.
pub const AMOUNT_BOUND: u64 = 1000;

/// Upper bound (exclusive) of a randomly drawn wait, in milliseconds.
pub const WAIT_BOUND_MS: u64 = 10000;

/// A 20-byte account address.
pub type Address = [u8; 20];

/// A 256-bit unsigned quantity, as 32 big-endian bytes.
pub type Word = [u8; 32];

/// A value transfer to an account.
#[derive(Clone, Copy, Debug, PartialEq, Eq)]
pub struct Transfer {
    pub to: Address,
    pub amount: Word,
}

/// One step of a script.
#[derive(Clone, Copy, Debug, PartialEq, Eq)]
pub enum Operation {
    Transfer(Transfer),
    /// No chain activity for this many milliseconds.
    Wait(u64),
}

/// The obligation left behind by a submitted transfer: its receipt is awaited.
#[derive(Clone, Copy, Debug, PartialEq, Eq)]
pub enum Effect {
    PendingReceipt {
        transfer: Transfer,
        hash: Word,
        /// When it was submitted, in milliseconds of the run's clock.
        start: u64,
        /// Position in the script of the transfer that produced it.
        index: usize,
    },
}

/// An ordered script of operations.
#[derive(Clone, Debug, PartialEq, Eq)]
pub struct Operations(pub Vec<Operation>);

impl Effect {
    pub open spec fn index_of(self) -> usize {
        match self {
            Effect::PendingReceipt { index, .. } => index,
        }
    }

    pub open spec fn start_of(self) -> u64 {
        match self {
            Effect::PendingReceipt { start, .. } => start,
        }
    }

    pub open spec fn transfer_of(self) -> Transfer {
        match self {
            Effect::PendingReceipt { transfer, .. } => transfer,
        }
    }

    pub open spec fn hash_of(self) -> Word {
        match self {
            Effect::PendingReceipt { hash, .. } => hash,
        }
    }

    /// The hash whose receipt is awaited.
    pub fn hash(&self) -> (r: Word)
        ensures
            r == self.hash_of(),
    {
        match self {
            Effect::PendingReceipt { hash, .. } => *hash,
        }
    }
}

impl View for Operations {
    type V = Seq<Operation>;

    open spec fn view(&self) -> Seq<Operation> {
        self.0@
    }
}

/// The 32-byte big-endian form of a number below 65536.
pub open spec fn small_word(n: nat) -> Seq<u8> {
    Seq::new(32, |i: int| if i == 30 { (n / 256) as u8 } else if i == 31 { (n % 256) as u8 } else { 0u8 })
}

/// The word holding `n`.
pub fn word_from_u16(n: u16) -> (r: Word)
    ensures
        r@ == small_word(n as nat),
{
    let mut w: Word = [0u8; 32];
    w[30] = (n / 256) as u8;
    w[31] = (n % 256) as u8;
    assert(w@ =~= small_word(n as nat));
    w
}

/// Milliseconds of pause an operation contributes.
pub open spec fn wait_of(op: Operation) -> nat {
    match op {
        Operation::Wait(ms) => ms as nat,
        Operation::Transfer(_) => 0,
    }
}

/// Sum of the waits of a script.
pub open spec fn total_wait(ops: Seq<Operation>) -> nat
    decreases ops.len(),
{
    if ops.len() == 0 {
        0
    } else {
        total_wait(ops.drop_last()) + wait_of(ops.last())
    }
}

} // verus!
