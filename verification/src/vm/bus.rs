//! The message bus, aka the M register.

use vstd::prelude::*;

use super::error::ExaError;
use crate::text::copy_string;

verus! {

#[derive(Debug, PartialEq, Eq)]
pub struct Message {
    pub sender: String,
    pub value: i32,
}

/// MessageBus, aka the M register.
/// Bus works roughly like this: a write to the bus cannot be read
/// the same cycle it is written. visible helps us track this.
/// additionally, only one message can be read out of the bus
/// per cycle. both readers and writers are released the cycle
/// that the corresponding message is read.
#[derive(Debug, PartialEq, Eq)]
pub struct MessageBus {
    pub messages: Vec<Message>,
    pub visible: usize,
    pub read_available: bool,
}

/// Model of a bus: the queued messages as (sender, value) pairs, oldest first.
#[verifier::ext_equal]
pub struct SpecBus {
    pub messages: Seq<(Seq<char>, i32)>,
    pub visible: nat,
    pub read_available: bool,
}

impl View for Message {
    type V = (Seq<char>, i32);

    open spec fn view(&self) -> (Seq<char>, i32) {
        (self.sender@, self.value)
    }
}

impl View for MessageBus {
    type V = SpecBus;

    open spec fn view(&self) -> SpecBus {
        SpecBus {
            messages: self.messages@.map_values(|m: Message| m@),
            visible: self.visible as nat,
            read_available: self.read_available,
        }
    }
}

impl SpecBus {
    /// Only messages that were on the bus when the cycle began can be read.
    pub open spec fn wf(self) -> bool {
        self.visible <= self.messages.len()
    }

    /// What `read` does: the oldest message, if one is visible and no message
    /// has been read this cycle.
    pub open spec fn read_outcome(self) -> (SpecBus, Result<(Seq<char>, i32), ExaError>) {
        if !self.read_available {
            (self, Err(ExaError::Blocking("no available read bandwidth on bus")))
        } else if self.visible == 0 || self.messages.len() == 0 {
            (self, Err(ExaError::Blocking("no messages available to read")))
        } else {
            (
                SpecBus {
                    messages: self.messages.drop_first(),
                    visible: (self.visible - 1) as nat,
                    read_available: false,
                },
                Ok(self.messages[0]),
            )
        }
    }

    /// What `write` does: the message joins the end of the queue, unseen this cycle.
    pub open spec fn after_write(self, sender: Seq<char>, value: i32) -> SpecBus {
        SpecBus { messages: self.messages.push((sender, value)), ..self }
    }

    /// What `run_cycle` does: everything queued becomes readable, and one read is allowed.
    pub open spec fn after_cycle(self) -> SpecBus {
        SpecBus { visible: self.messages.len(), read_available: true, ..self }
    }

    pub open spec fn empty() -> SpecBus {
        SpecBus { messages: Seq::empty(), visible: 0, read_available: true }
    }
}

pub open spec fn read_view(r: Result<Message, ExaError>) -> Result<(Seq<char>, i32), ExaError> {
    match r {
        Ok(m) => Ok(m@),
        Err(e) => Err(e),
    }
}

/// The result of a write: the writer freezes until its message is read.
pub open spec fn write_freeze() -> ExaError {
    ExaError::Freezing("bus write successful, freezing until it is read")
}

impl MessageBus {
    pub fn new() -> (b: MessageBus)
        ensures
            b@ == SpecBus::empty(),
            b@.wf(),
    {
        let b = MessageBus { messages: Vec::new(), visible: 0, read_available: true };
        assert(b@.messages =~= Seq::empty());
        b
    }

    pub fn read(&mut self) -> (r: Result<Message, ExaError>)
        requires
            old(self)@.wf(),
        ensures
            final(self)@.wf(),
            (final(self)@, read_view(r)) == old(self)@.read_outcome(),
    {
        if !self.read_available {
            return Err(ExaError::Blocking("no available read bandwidth on bus"));
        }
        if self.visible == 0 || self.messages.len() == 0 {
            return Err(ExaError::Blocking("no messages available to read"));
        }
        let ghost before = self@;
        let read = self.messages.remove(0);
        self.visible = self.visible - 1;
        self.read_available = false;
        assert(self@.messages =~= before.messages.drop_first());
        Ok(read)
    }

    /// Queues a message from the EXA named `sender` and reports the freeze that
    /// follows every write.
    pub fn write(&mut self, sender: &String, value: i32) -> (r: Result<(), ExaError>)
        requires
            old(self)@.wf(),
        ensures
            final(self)@.wf(),
            final(self)@ == old(self)@.after_write(sender@, value),
            r == Err::<(), ExaError>(write_freeze()),
    {
        let ghost before = self@;
        self.messages.push(Message { sender: copy_string(sender), value: value });
        assert(self@.messages =~= before.messages.push((sender@, value)));
        Err(ExaError::Freezing("bus write successful, freezing until it is read"))
    }

    /// Reset read_available and make all written messages visible. Needs to be
    /// run before Exa cycles each VM cycle.
    pub fn run_cycle(&mut self)
        ensures
            final(self)@ == old(self)@.after_cycle(),
            final(self)@.wf(),
    {
        self.read_available = true;
        self.visible = self.messages.len();
    }

    /// Whether any message is queued, readable this cycle or not (TEST MRD).
    pub fn has_messages(&self) -> (r: bool)
        ensures
            r == (self@.messages.len() > 0),
    {
        self.messages.len() > 0
    }
}

/// A message written during a cycle cannot be read during that same cycle: a
/// read after the write gets what it would have got without it, so when
/// nothing was readable before the write, the read blocks.
pub proof fn law_write_not_readable_same_cycle(b: SpecBus, sender: Seq<char>, value: i32)
    requires
        b.wf(),
    ensures
        b.after_write(sender, value).read_outcome().1 == b.read_outcome().1,
        b.visible == 0 ==> b.after_write(sender, value).read_outcome().1 is Err,
{
}

/// Only one message can be read per cycle: after a read that succeeds, the next
/// read in the same cycle blocks.
pub proof fn law_one_read_per_cycle(b: SpecBus)
    requires
        b.wf(),
        b.read_outcome().1 is Ok,
    ensures
        b.read_outcome().0.read_outcome().1 is Err,
{
}

/// Messages are read in the order they were written: once a new cycle begins,
/// a read returns the oldest message on the bus, whatever was written after it.
pub proof fn law_read_oldest_first(b: SpecBus, sender: Seq<char>, value: i32)
    requires
        b.wf(),
        b.messages.len() > 0,
    ensures
        b.after_write(sender, value).after_cycle().read_outcome().1 == Ok::<
            (Seq<char>, i32),
            ExaError,
        >(b.messages[0]),
{
}

/// A message written to an empty bus is read back, unchanged, on the next cycle,
/// and reading it leaves the bus empty.
pub proof fn law_write_then_read(sender: Seq<char>, value: i32)
    ensures
        SpecBus::empty().after_write(sender, value).after_cycle().read_outcome().1 == Ok::<
            (Seq<char>, i32),
            ExaError,
        >((sender, value)),
        SpecBus::empty().after_write(sender, value).after_cycle().read_outcome().0.messages.len()
            == 0,
{
}

} // verus!
