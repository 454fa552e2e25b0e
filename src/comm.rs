//! Links between neighbouring workers: each worker holds, toward the band
//! above and toward the band below, a sender and a receiver of one
//! in-process channel pair, or nothing at the ends of the chain.
use crate::error::GridError;
use std::sync::mpsc::{Receiver, Sender};
use vstd::prelude::*;

verus! {

#[verifier::external_type_specification]
#[verifier::external_body]
#[verifier::reject_recursive_types(T)]
pub struct ExSender<T>(Sender<T>);

#[verifier::external_type_specification]
#[verifier::external_body]
#[verifier::reject_recursive_types(T)]
pub struct ExReceiver<T>(Receiver<T>);

/// Relies on `std::sync::mpsc::channel`: a new sender and the receiver
/// that gets, in order, what it sends.
#[verifier::external_body]
fn open_link<T>() -> (Sender<T>, Receiver<T>) {
    std::sync::mpsc::channel()
}

/// Relies on `Sender::send`: hands `value` to the receiving end, and fails
/// only when that end has been dropped.
#[verifier::external_body]
fn send_on<T>(sender: &Sender<T>, value: T) -> bool {
    sender.send(value).is_ok()
}

/// Relies on `Receiver::recv`: blocks until a value arrives, and fails only
/// when every sender has been dropped with nothing left to receive.
#[verifier::external_body]
fn receive_on<T>(receiver: &Receiver<T>) -> Option<T> {
    receiver.recv().ok()
}

/// One worker's endpoints: toward the band above (`top`) and toward the
/// band below (`bottom`); either side may be absent.
#[verifier::reject_recursive_types(T)]
pub struct DuplexChannel<T> {
    top_sender: Option<Sender<T>>,
    top_receiver: Option<Receiver<T>>,
    bottom_sender: Option<Sender<T>>,
    bottom_receiver: Option<Receiver<T>>,
}

impl<T> DuplexChannel<T> {
    /// Each side has both a sender and a receiver, or neither.
    pub closed spec fn wf(&self) -> bool {
        &&& self.top_sender.is_some() == self.top_receiver.is_some()
        &&& self.bottom_sender.is_some() == self.bottom_receiver.is_some()
    }

    /// There is a neighbour above.
    pub closed spec fn has_top(&self) -> bool {
        self.top_sender.is_some()
    }

    /// There is a neighbour below.
    pub closed spec fn has_bottom(&self) -> bool {
        self.bottom_sender.is_some()
    }

    /// Endpoints with no neighbour on either side.
    fn new() -> (r: DuplexChannel<T>)
        ensures
            r.wf(),
            !r.has_top(),
            !r.has_bottom(),
    {
        DuplexChannel {
            top_sender: None,
            top_receiver: None,
            bottom_sender: None,
            bottom_receiver: None,
        }
    }

    /// The endpoints of `number` workers in a line: worker `i` and worker
    /// `i + 1` share a link, the first has no neighbour above and the last
    /// none below.
    pub fn get_chain(number: usize) -> (r: Vec<DuplexChannel<T>>)
        ensures
            r@.len() == number,
            forall|i: int|
                0 <= i < number ==> {
                    &&& (#[trigger] r@[i]).wf()
                    &&& r@[i].has_top() <==> i > 0
                    &&& r@[i].has_bottom() <==> i + 1 < number
                },
    {
        let mut result: Vec<DuplexChannel<T>> = Vec::new();
        let mut carry: Option<(Sender<T>, Receiver<T>)> = None;
        let mut i: usize = 0;
        while i < number
            invariant
                0 <= i <= number,
                result@.len() == i,
                carry.is_some() <==> (0 < i < number),
                forall|j: int|
                    0 <= j < i ==> {
                        &&& (#[trigger] result@[j]).wf()
                        &&& result@[j].has_top() <==> j > 0
                        &&& result@[j].has_bottom() <==> j + 1 < number
                    },
            decreases number - i,
        {
            let mut slot = DuplexChannel::new();
            match carry {
                Some((sender, receiver)) => {
                    slot.top_sender = Some(sender);
                    slot.top_receiver = Some(receiver);
                },
                None => {},
            }
            carry = None;
            if i + 1 < number {
                let (down_sender, from_above) = open_link();
                let (up_sender, from_below) = open_link();
                slot.bottom_sender = Some(down_sender);
                slot.bottom_receiver = Some(from_below);
                carry = Some((up_sender, from_above));
            }
            result.push(slot);
            i += 1;
        }
        result
    }

    /// Sends `value` to the neighbour above; nothing happens without one.
    pub fn send_top(&self, value: T) -> (r: Result<(), GridError>)
        ensures
            !self.has_top() ==> r == Ok::<(), GridError>(()),
            r is Err ==> r == Err::<(), GridError>(GridError::WorkerFailure),
    {
        match &self.top_sender {
            Some(sender) => if send_on(sender, value) {
                Ok(())
            } else {
                Err(GridError::WorkerFailure)
            },
            None => Ok(()),
        }
    }

    /// Waits for the next value from the neighbour above; `None` at once
    /// without one.
    pub fn receive_top(&self) -> (r: Result<Option<T>, GridError>)
        requires
            self.wf(),
        ensures
            !self.has_top() ==> r == Ok::<Option<T>, GridError>(None),
            self.has_top() ==> match r {
                Ok(v) => v is Some,
                Err(e) => e == GridError::WorkerFailure,
            },
    {
        match &self.top_receiver {
            Some(receiver) => match receive_on(receiver) {
                Some(v) => Ok(Some(v)),
                None => Err(GridError::WorkerFailure),
            },
            None => Ok(None),
        }
    }

    /// Sends `value` to the neighbour below; nothing happens without one.
    pub fn send_bottom(&self, value: T) -> (r: Result<(), GridError>)
        ensures
            !self.has_bottom() ==> r == Ok::<(), GridError>(()),
            r is Err ==> r == Err::<(), GridError>(GridError::WorkerFailure),
    {
        match &self.bottom_sender {
            Some(sender) => if send_on(sender, value) {
                Ok(())
            } else {
                Err(GridError::WorkerFailure)
            },
            None => Ok(()),
        }
    }

    /// Waits for the next value from the neighbour below; `None` at once
    /// without one.
    pub fn receive_bottom(&self) -> (r: Result<Option<T>, GridError>)
        requires
            self.wf(),
        ensures
            !self.has_bottom() ==> r == Ok::<Option<T>, GridError>(None),
            self.has_bottom() ==> match r {
                Ok(v) => v is Some,
                Err(e) => e == GridError::WorkerFailure,
            },
    {
        match &self.bottom_receiver {
            Some(receiver) => match receive_on(receiver) {
                Some(v) => Ok(Some(v)),
                None => Err(GridError::WorkerFailure),
            },
            None => Ok(None),
        }
    }
}

} // verus!
