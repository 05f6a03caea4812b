//! The console input buffer: keys arrive from the serial interrupt and are
//! consumed by processes, through a bounded lock-free queue.

use vstd::prelude::*;

use crossbeam_queue::ArrayQueue;

verus! {

/// The capacity of the input buffer.
pub const INPUT_BUF_SIZE: usize = 128;

#[verifier::external_type_specification]
#[verifier::external_body]
#[verifier::reject_recursive_types(T)]
pub struct ExArrayQueue<T>(ArrayQueue<T>);

/// The keys the queue holds, oldest first.
pub uninterp spec fn queue_keys(q: ArrayQueue<u8>) -> Seq<u8>;

/// The capacity the queue was made with.
pub uninterp spec fn queue_cap(q: ArrayQueue<u8>) -> nat;

/// Relies on `crossbeam_queue::ArrayQueue::new`: a fresh queue with the
/// given capacity holds nothing. The capacity must be positive and small
/// enough to allocate.
#[verifier::external_body]
fn queue_new(cap: usize) -> (q: ArrayQueue<u8>)
    requires
        0 < cap <= 0x1000,
    ensures
        queue_keys(q) == Seq::<u8>::empty(),
        queue_cap(q) == cap,
{
    ArrayQueue::new(cap)
}

/// Relies on `crossbeam_queue::ArrayQueue::push`: with room left the value
/// joins the back of the queue, else it comes back in the error.
#[verifier::external_body]
fn queue_push(q: &mut ArrayQueue<u8>, key: u8) -> (r: bool)
    ensures
        queue_cap(*final(q)) == queue_cap(*old(q)),
        r == (queue_keys(*old(q)).len() < queue_cap(*old(q))),
        r ==> queue_keys(*final(q)) == queue_keys(*old(q)).push(key),
        !r ==> queue_keys(*final(q)) == queue_keys(*old(q)),
{
    q.push(key).is_ok()
}

/// Relies on `crossbeam_queue::ArrayQueue::pop`: the oldest value leaves
/// the queue, or nothing when it is empty.
#[verifier::external_body]
fn queue_pop(q: &mut ArrayQueue<u8>) -> (r: Option<u8>)
    ensures
        queue_cap(*final(q)) == queue_cap(*old(q)),
        match r {
            Some(k) => queue_keys(*old(q)).len() > 0 && k == queue_keys(*old(q))[0] && queue_keys(
                *final(q),
            ) == queue_keys(*old(q)).drop_first(),
            None => queue_keys(*old(q)).len() == 0 && queue_keys(*final(q)) == queue_keys(
                *old(q),
            ),
        },
{
    q.pop()
}

/// The buffer keys pass through between the serial interrupt and the
/// processes reading the console.
pub struct InputBuffer {
    queue: ArrayQueue<u8>,
}

impl InputBuffer {
    /// The buffered keys, oldest first.
    pub closed spec fn view(&self) -> Seq<u8> {
        queue_keys(self.queue)
    }

    pub closed spec fn spec_cap(&self) -> nat {
        queue_cap(self.queue)
    }

    pub open spec fn wf(&self) -> bool {
        self.spec_cap() == INPUT_BUF_SIZE
    }

    /// An empty input buffer.
    pub fn new() -> (r: InputBuffer)
        ensures
            r.wf(),
            r@ == Seq::<u8>::empty(),
    {
        InputBuffer { queue: queue_new(INPUT_BUF_SIZE) }
    }

    /// Queues one key; with the buffer full the key is dropped, as the
    /// serial interrupt cannot wait.
    pub fn push_key(&mut self, key: u8) -> (r: bool)
        requires
            old(self).wf(),
        ensures
            final(self).wf(),
            r == (old(self)@.len() < old(self).spec_cap()),
            r ==> final(self)@ == old(self)@.push(key),
            !r ==> final(self)@ == old(self)@,
    {
        queue_push(&mut self.queue, key)
    }

    /// Takes the oldest key, if any.
    pub fn try_pop_key(&mut self) -> (r: Option<u8>)
        requires
            old(self).wf(),
        ensures
            final(self).wf(),
            match r {
                Some(k) => old(self)@.len() > 0 && k == old(self)@[0] && final(self)@ == old(
                    self,
                )@.drop_first(),
                None => old(self)@.len() == 0 && final(self)@ == old(self)@,
            },
    {
        queue_pop(&mut self.queue)
    }

    /// Takes the oldest key. The interrupt producer lives outside the
    /// library, so a caller that wants to wait loops on this; with the
    /// buffer in hand and empty there is nothing to wait for, and `None`
    /// comes back at once.
    pub fn pop_key(&mut self) -> (r: Option<u8>)
        requires
            old(self).wf(),
        ensures
            final(self).wf(),
            match r {
                Some(k) => old(self)@.len() > 0 && k == old(self)@[0] && final(self)@ == old(
                    self,
                )@.drop_first(),
                None => old(self)@.len() == 0 && final(self)@ == old(self)@,
            },
    {
        self.try_pop_key()
    }
}

} // verus!
