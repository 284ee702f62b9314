use std::sync::mpsc::{Receiver, Sender, TryRecvError};
use vstd::prelude::*;

verus! {

#[verifier::external_type_specification]
#[verifier::external_body]
#[verifier::reject_recursive_types(T)]
pub struct ExReceiver<T>(Receiver<T>);

#[verifier::external_type_specification]
#[verifier::external_body]
#[verifier::reject_recursive_types(T)]
pub struct ExSender<T>(Sender<T>);

/// What one look at a cancellation channel found.
#[derive(Clone, Copy, PartialEq, Eq, Debug)]
pub enum ChannelPoll {
    /// A cancellation message was waiting (and has now been taken).
    Signalled,
    /// No message is waiting and the sending side is still alive.
    Pending,
    /// The sending side is gone: nobody can ask for the work any more.
    Disconnected,
}

/// Calls `std::sync::mpsc::Receiver::try_recv`, which std documents as
/// never blocking, and reports which outcome came back.  Nothing is claimed
/// of the outcome: it depends on what other threads have sent or dropped.
#[verifier::external_body]
fn try_receive(rx: &Receiver<()>) -> (p: ChannelPoll) {
    match rx.try_recv() {
        Ok(()) => ChannelPoll::Signalled,
        Err(TryRecvError::Empty) => ChannelPoll::Pending,
        Err(TryRecvError::Disconnected) => ChannelPoll::Disconnected,
    }
}

/// Calls `std::sync::mpsc::channel` for a fresh cancellation channel.
/// Nothing is claimed of the two ends beyond their types.
#[verifier::external_body]
fn open_channel() -> (ends: (Sender<()>, Receiver<()>)) {
    std::sync::mpsc::channel()
}

/// Calls `std::sync::mpsc::Sender::send` with a unit message and drops the
/// outcome: a receiver that is gone needs no cancelling.
#[verifier::external_body]
fn send_signal(tx: &Sender<()>) {
    let _ = tx.send(());
}

/// Whether a look at the cancellation channel means that the work should
/// stop: anything but an empty, still connected channel does.
pub fn poll_means_done(p: ChannelPoll) -> (done: bool)
    ensures
        done <==> p != ChannelPoll::Pending,
{
    match p {
        ChannelPoll::Pending => false,
        _ => true,
    }
}

/// What a piece of work does once it has looked at its token: stop with
/// `Err(Aborted)` when the token said done, go on with `Ok(())` otherwise.
pub fn abort_if_done(done: bool) -> (r: Result<(), Aborted>)
    ensures
        r is Err <==> done,
{
    if done {
        Err(Aborted)
    } else {
        Ok(())
    }
}

/// How a piece of background work learns that it is no longer wanted.
pub enum Cancel {
    /// Cancelled when a message arrives on the channel, or when its sender is
    /// gone.  The token is polled by the one thread that does the work.
    OnMessage(Receiver<()>),
    /// Never cancelled.
    Never,
}

/// Why a piece of work stopped early.
#[derive(Clone, Copy, PartialEq, Eq, Debug)]
pub struct Aborted;

impl Cancel {
    /// Whether the work should stop now.  `Never` never stops; for
    /// `OnMessage` the answer is what `poll_means_done` makes of a look at
    /// the channel, which other threads decide: done when a message was
    /// waiting (it is taken) or the sender is gone.
    pub fn check_done(&self) -> (done: bool)
        ensures
            self is Never ==> !done,
    {
        match self {
            Cancel::OnMessage(done) => {
                let p = try_receive(done);
                poll_means_done(p)
            },
            Cancel::Never => false,
        }
    }

    /// Stops the work with `Err(Aborted)` when `check_done` says so, and
    /// lets it go on with `Ok(())` otherwise: `abort_if_done` applied to a
    /// look at the token.
    pub fn maybe_abort(&self) -> (r: Result<(), Aborted>)
        ensures
            self is Never ==> r is Ok,
            r is Err ==> call_ensures(Cancel::check_done, (self,), true),
            r is Ok ==> call_ensures(Cancel::check_done, (self,), false),
    {
        let done = self.check_done();
        abort_if_done(done)
    }
}

/// Hands out cancellation tokens so that at most one piece of background
/// work is wanted at a time.
pub struct Worker {
    cancellation: Option<Sender<()>>,
}

impl Default for Worker {
    fn default() -> (w: Worker)
        ensures
            !w.has_job(),
    {
        Worker { cancellation: None }
    }
}

impl Worker {
    /// Whether a job was started, whose cancellation channel this worker holds.
    pub closed spec fn has_job(&self) -> bool {
        self.cancellation is Some
    }

    /// A worker that has started no job.
    pub fn new() -> (w: Worker)
        ensures
            !w.has_job(),
    {
        Worker { cancellation: None }
    }

    /// Starts a new job: asks the job started before, if any, to stop, and
    /// returns the token of the new job, which is cancelled by a message on
    /// a fresh channel whose sender this worker keeps.
    pub fn start_job(&mut self) -> (c: Cancel)
        ensures
            final(self).has_job(),
            c is OnMessage,
    {
        if let Some(old) = &self.cancellation {
            send_signal(old);
        }
        let (tx, rx) = open_channel();
        self.cancellation = Some(tx);
        Cancel::OnMessage(rx)
    }
}

} // verus!
