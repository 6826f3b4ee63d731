//! What the layer above the codec is given: ids for its calls, and the
//! interface of a channel that serves them.

use vstd::prelude::*;
use crate::packets::CodePacket;

verus! {

/// A source of ids for calls and subscriptions. Each connection owns one, so
/// that connections never share an id sequence.
pub struct IdCounter {
    next: i32,
}

impl IdCounter {
    /// The id that the next call of `next_counter` gives.
    pub closed spec fn upcoming(&self) -> i32 {
        self.next
    }

    /// A counter that starts at zero.
    pub fn new() -> (counter: Self)
        ensures
            counter.upcoming() == 0,
    {
        IdCounter { next: 0 }
    }
}

/// The id that follows `id`: one more, and the least id after the greatest.
pub open spec fn id_after(id: i32) -> i32 {
    if id == i32::MAX {
        i32::MIN
    } else {
        (id + 1) as i32
    }
}

/// Takes the next id from `counter`.
pub fn next_counter(counter: &mut IdCounter) -> (id: i32)
    ensures
        id == old(counter).upcoming(),
        final(counter).upcoming() == id_after(id),
{
    let id = counter.next;
    counter.next = if id == i32::MAX {
        i32::MIN
    } else {
        id + 1
    };
    id
}

/// A channel: what answers the calls that name it.
pub trait ChannelServerImpl {
    /// Answers a call of `method` with the argument `arg`.
    fn handle_call(&self, method: String, arg: CodePacket) -> CodePacket;
}

} // verus!
