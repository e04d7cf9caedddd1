use rand::Rng;
use vstd::prelude::*;

use crate::model::{
    total_wait, small_word, wait_of, word_from_u16, Address, Operation, Operations, Transfer,
    AMOUNT_BOUND, WAIT_BOUND_MS,
};

verus! {

/// Relies on rand::thread_rng and Rng::gen_range: a value of the half-open
/// range `0..bound`, which is not empty here.
#[verifier::external_body]
fn random_below(bound: u64) -> (r: u64)
    requires
        bound > 0,
    ensures
        r < bound,
{
    rand::thread_rng().gen_range(0..bound)
}

/// Relies on rand::thread_rng and Rng::gen: any 20 bytes.
#[verifier::external_body]
fn random_address() -> (r: Address) {
    rand::thread_rng().gen()
}

/// An operation that the generator may draw: a transfer of an amount below
/// the amount bound, or a wait below the wait bound.
pub open spec fn drawable(op: Operation) -> bool {
    match op {
        Operation::Transfer(t) => exists|n: nat| n < AMOUNT_BOUND && t.amount@ == small_word(n),
        Operation::Wait(ms) => ms < WAIT_BOUND_MS,
    }
}

/// Draws one operation: a transfer or a wait, each with even odds.
fn draw_operation() -> (r: Operation)
    ensures
        drawable(r),
{
    let kind = random_below(2);
    if kind == 0 {
        let to = random_address();
        let n = random_below(AMOUNT_BOUND);
        let amount = word_from_u16(n as u16);
        proof {
            assert(amount@ == small_word(n as nat));
        }
        Operation::Transfer(Transfer { to, amount })
    } else {
        Operation::Wait(random_below(WAIT_BOUND_MS))
    }
}

/// Accumulates operations until their waits exceed a target.
pub struct ScriptBuilder {
    target: u64,
    waited: u128,
    ops: Vec<Operation>,
}

impl ScriptBuilder {
    pub closed spec fn target_spec(&self) -> u64 {
        self.target
    }

    pub closed spec fn ops_spec(&self) -> Seq<Operation> {
        self.ops@
    }

    /// The waits so far have not exceeded the target, but perhaps by the last
    /// operation; the count of waits is kept exactly.
    pub closed spec fn wf(&self) -> bool {
        &&& self.waited == total_wait(self.ops@)
        &&& self.ops@.len() > 0 ==> total_wait(self.ops@.drop_last()) <= self.target
    }

    pub open spec fn done_spec(&self) -> bool {
        total_wait(self.ops_spec()) > self.target_spec()
    }

    /// An empty script aiming at `target` milliseconds of waiting.
    pub fn new(target: u64) -> (r: Self)
        ensures
            r.wf(),
            r.target_spec() == target,
            r.ops_spec() == Seq::<Operation>::empty(),
    {
        ScriptBuilder { target, waited: 0, ops: Vec::new() }
    }

    /// Whether the waits now exceed the target.
    pub fn is_done(&self) -> (r: bool)
        requires
            self.wf(),
        ensures
            r == self.done_spec(),
    {
        self.waited > self.target as u128
    }

    /// Appends an operation and says whether the waits now exceed the target.
    pub fn push(&mut self, op: Operation) -> (r: bool)
        requires
            old(self).wf(),
            !old(self).done_spec(),
        ensures
            final(self).wf(),
            final(self).target_spec() == old(self).target_spec(),
            final(self).ops_spec() == old(self).ops_spec().push(op),
            r == final(self).done_spec(),
    {
        let ghost before = self.ops@;
        let ms: u64 = match op {
            Operation::Wait(ms) => ms,
            Operation::Transfer(_) => 0,
        };
        self.waited = self.waited + ms as u128;
        self.ops.push(op);
        proof {
            assert(self.ops@.drop_last() =~= before);
        }
        self.waited > self.target as u128
    }

    /// The script built so far.
    pub fn finish(self) -> (r: Operations)
        ensures
            r@ == self.ops_spec(),
    {
        Operations(self.ops)
    }
}

/// The most operations a generated script holds. A `Vec` of this many
/// operations exceeds any address space, so generation stops on its target
/// long before.
pub const MAX_SCRIPT_LEN: u64 = 1152921504606846976;

/// A script whose waits add up to more than zero holds a wait of positive
/// length: transfers and empty waits alone never end generation.
pub proof fn lemma_positive_wait_exists(ops: Seq<Operation>)
    requires
        total_wait(ops) > 0,
    ensures
        exists|i: int| 0 <= i < ops.len() && wait_of(#[trigger] ops[i]) > 0,
    decreases ops.len(),
{
    if wait_of(ops.last()) > 0 {
        assert(wait_of(ops[ops.len() - 1]) > 0);
    } else {
        lemma_positive_wait_exists(ops.drop_last());
        let i = choose|i: int| 0 <= i < ops.drop_last().len() && wait_of(#[trigger] ops.drop_last()[i]) > 0;
        assert(ops[i] == ops.drop_last()[i]);
    }
}

impl Operations {
    /// A random script whose waits add up to more than `total_ms`
    /// milliseconds, and that stops at the first operation that makes them
    /// do so.
    pub fn generate(total_ms: u64) -> (r: Operations)
        ensures
            r@.len() >= 1,
            total_wait(r@) > total_ms || r@.len() == MAX_SCRIPT_LEN,
            r@.len() < MAX_SCRIPT_LEN ==> exists|i: int|
                0 <= i < r@.len() && wait_of(#[trigger] r@[i]) > 0,
            total_wait(r@.drop_last()) <= total_ms,
            forall|i: int| 0 <= i < r@.len() ==> drawable(#[trigger] r@[i]),
    {
        let mut builder = ScriptBuilder::new(total_ms);
        let mut done = false;
        let mut count: u64 = 0;
        while !done && count < MAX_SCRIPT_LEN
            invariant
                builder.wf(),
                builder.target_spec() == total_ms,
                done == builder.done_spec(),
                count as int == builder.ops_spec().len(),
                count <= MAX_SCRIPT_LEN,
                forall|i: int|
                    0 <= i < builder.ops_spec().len() ==> drawable(#[trigger] builder.ops_spec()[i]),
            decreases MAX_SCRIPT_LEN - count,
        {
            let op = draw_operation();
            done = builder.push(op);
            count = count + 1;
        }
        proof {
            if !done {
                assert(count == MAX_SCRIPT_LEN);
            } else {
                lemma_positive_wait_exists(builder.ops_spec());
            }
        }
        builder.finish()
    }
}

} // verus!
