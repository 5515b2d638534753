//! The work/result pipe of the tar engine: a multi-producer,
//! multi-consumer queue coupled with a shared `completed` flag.
//!
//! Senders, receivers and the flag are shared across worker threads, so
//! nothing can be promised about which value a receive yields; what is
//! verified is the discipline around the channel: the patient bounded
//! retry, the honoring of `completed`, the recovery of an error carried
//! by a message whose send failed, and that collecting an expected
//! count yields exactly that many items.

use vstd::prelude::*;

verus! {

/// Why a non-blocking receive failed.
#[derive(Debug, Clone, Copy, PartialEq, Eq, Structural)]
pub enum RecvFailure {
    Empty,
    Disconnected,
}

/// Why a bounded-wait receive failed.
#[derive(Debug, Clone, Copy, PartialEq, Eq, Structural)]
pub enum TimeoutFailure {
    Timeout,
    Disconnected,
}

/// The archive engine's error type, with outside errors carried as
/// plain values.
#[derive(Debug, Clone)]
pub enum ArchiverError {
    Io(String),
    WalkdirError(String),
    TryRecvError(RecvFailure),
    RecvTimeoutError(TimeoutFailure),
    SendError,
    LockPoisoned,
    ChannelClosed,
}

#[verifier::external_type_specification]
#[verifier::external_body]
#[verifier::reject_recursive_types(T)]
pub struct ExSender<T>(flume::Sender<T>);

#[verifier::external_type_specification]
#[verifier::external_body]
#[verifier::reject_recursive_types(T)]
pub struct ExReceiver<T>(flume::Receiver<T>);

#[verifier::external_type_specification]
#[verifier::external_body]
#[verifier::reject_recursive_types(T)]
pub struct ExMutex<T: ?Sized>(std::sync::Mutex<T>);

/// Relies on flume::unbounded: a fresh unbounded channel pair.
#[verifier::external_body]
fn channel_unbounded<T>() -> (flume::Sender<T>, flume::Receiver<T>) {
    flume::unbounded()
}

/// Relies on flume::Sender::send: on an unbounded channel it fails only
/// when every receiver is gone, and then hands the message back.
#[verifier::external_body]
fn channel_send<T>(tx: &flume::Sender<T>, v: T) -> (r: Result<(), T>)
    ensures
        r matches Err(u) ==> u == v,
{
    match tx.send(v) {
        Ok(()) => Ok(()),
        Err(flume::SendError(u)) => Err(u),
    }
}

/// Relies on flume::Receiver::recv_timeout: waits at most the given
/// time for a message.
#[verifier::external_body]
fn channel_recv_timeout_ms<T>(rx: &flume::Receiver<T>, ms: u64) -> (r: Result<T, TimeoutFailure>) {
    match rx.recv_timeout(core::time::Duration::from_millis(ms)) {
        Ok(v) => Ok(v),
        Err(flume::RecvTimeoutError::Timeout) => Err(TimeoutFailure::Timeout),
        Err(flume::RecvTimeoutError::Disconnected) => Err(TimeoutFailure::Disconnected),
    }
}

/// Relies on flume::Sender::clone: another handle to the same channel.
#[verifier::external_body]
fn clone_sender<T>(tx: &flume::Sender<T>) -> flume::Sender<T> {
    tx.clone()
}

/// Relies on flume::Receiver::clone: another handle to the same
/// channel; every message still goes to a single receiver.
#[verifier::external_body]
fn clone_receiver<T>(rx: &flume::Receiver<T>) -> flume::Receiver<T> {
    rx.clone()
}

/// Relies on std::sync::Mutex::new.
#[verifier::external_body]
fn mutex_new<T>(v: T) -> std::sync::Mutex<T> {
    std::sync::Mutex::new(v)
}

/// Relies on std::sync::Arc::clone: another handle to the same flag.
#[verifier::external_body]
fn clone_flag<T>(m: &std::sync::Arc<std::sync::Mutex<T>>) -> std::sync::Arc<std::sync::Mutex<T>> {
    std::sync::Arc::clone(m)
}

/// Relies on std::sync::Mutex::lock: stores the value under the lock;
/// fails only when the lock is poisoned.
#[verifier::external_body]
fn mutex_store<T: Copy>(m: &std::sync::Arc<std::sync::Mutex<T>>, v: T) -> (r: Result<(), ()>) {
    match m.lock() {
        Ok(mut guard) => {
            *guard = v;
            Ok(())
        },
        Err(_) => Err(()),
    }
}

/// Relies on std::sync::Mutex::lock: copies the value out from under
/// the lock; fails only when the lock is poisoned.
#[verifier::external_body]
fn mutex_read<T: Copy>(m: &std::sync::Arc<std::sync::Mutex<T>>) -> (r: Result<T, ()>) {
    match m.lock() {
        Ok(guard) => Ok(*guard),
        Err(_) => Err(()),
    }
}

/// Sets a shared mutex-guarded value; the only failure is a poisoned
/// lock, reported as such.
pub fn set_mutex<T: Copy>(mutex: &std::sync::Arc<std::sync::Mutex<T>>, val: T) -> (r: Result<
    (),
    ArchiverError,
>)
    ensures
        r matches Err(e) ==> e is LockPoisoned,
{
    match mutex_store(mutex, val) {
        Ok(()) => Ok(()),
        Err(()) => Err(ArchiverError::LockPoisoned),
    }
}

/// Reads a shared mutex-guarded value; the only failure is a poisoned
/// lock, reported as such.
pub fn get_mutex<T: Copy>(mutex: &std::sync::Arc<std::sync::Mutex<T>>) -> (r: Result<
    T,
    ArchiverError,
>)
    ensures
        r matches Err(e) ==> e is LockPoisoned,
{
    match mutex_read(mutex) {
        Ok(v) => Ok(v),
        Err(()) => Err(ArchiverError::LockPoisoned),
    }
}

/// How many times a patient receive polls before giving up.
pub const MAX_TRIES: u32 = 100;

/// How long one patient poll waits, in milliseconds.
pub const DELAY_MS: u64 = 128;

/// Patient bounded receive: polls the queue, waiting `wait_ms` per
/// attempt, for at most `max_try + 1` attempts; it gives up early once
/// the `completed` flag is seen set. Always returns within the bound.
fn take_mutex_try_many<T>(
    rx: &flume::Receiver<T>,
    max_try: u32,
    wait_ms: u64,
    completed: &std::sync::Arc<std::sync::Mutex<bool>>,
) -> (r: Result<T, ArchiverError>)
    ensures
        r matches Err(e) ==> (e is TryRecvError || e is LockPoisoned),
{
    let mut ct: u32 = 0;
    loop
        invariant
            ct <= max_try,
        decreases max_try - ct,
    {
        match channel_recv_timeout_ms(rx, wait_ms) {
            Ok(v) => {
                return Ok(v);
            },
            Err(failure) => {
                let fail_kind = match failure {
                    TimeoutFailure::Timeout => RecvFailure::Empty,
                    TimeoutFailure::Disconnected => RecvFailure::Disconnected,
                };
                let done = match get_mutex(completed) {
                    Ok(b) => b,
                    Err(e) => {
                        return Err(e);
                    },
                };
                if ct >= max_try || done {
                    return Err(ArchiverError::TryRecvError(fail_kind));
                }
                ct = ct + 1;
            },
        }
    }
}

/// Relies on flume::Receiver::recv: blocks until a message arrives;
/// fails only when every sender is gone.
#[verifier::external_body]
fn channel_recv<T>(rx: &flume::Receiver<T>) -> (r: Result<T, ()>) {
    match rx.recv() {
        Ok(v) => Ok(v),
        Err(flume::RecvError::Disconnected) => Err(()),
    }
}

/// Blocking collection of a known number of items: waits as long as it
/// takes for each one, and does not honor `completed` — the caller must
/// guarantee that `ct_expect` messages will be delivered. It fails only
/// when every sender is gone with messages still owed.
pub fn collect_expected<T>(ct_expect: usize, rx: &flume::Receiver<T>) -> (r: Result<
    Vec<T>,
    ArchiverError,
>)
    ensures
        r matches Ok(items) ==> items@.len() == ct_expect,
        r matches Err(e) ==> e == ArchiverError::RecvTimeoutError(TimeoutFailure::Disconnected),
{
    let mut items: Vec<T> = Vec::new();
    while items.len() < ct_expect
        invariant
            items@.len() <= ct_expect,
        decreases ct_expect - items@.len(),
    {
        match channel_recv(rx) {
            Ok(v) => {
                items.push(v);
            },
            Err(()) => {
                return Err(ArchiverError::RecvTimeoutError(TimeoutFailure::Disconnected));
            },
        }
    }
    Ok(items)
}

/// A work or result pipe: one shared queue and one shared completion
/// flag; clones are handles to the same underlying pair.
#[derive(Debug)]
#[verifier::reject_recursive_types(T)]
pub struct Pipe<T> {
    pub tx: flume::Sender<T>,
    pub rx: flume::Receiver<T>,
    pub completed: std::sync::Arc<std::sync::Mutex<bool>>,
}

impl<T> Pipe<T> {
    /// A fresh pipe: empty queue, flag not set.
    pub fn new() -> Self {
        let (tx, rx) = channel_unbounded();
        Pipe { tx, rx, completed: std::sync::Arc::new(mutex_new(false)) }
    }

    /// A sending handle to the queue.
    pub fn input(&self) -> flume::Sender<T> {
        clone_sender(&self.tx)
    }

    /// A receiving handle to the queue.
    pub fn output(&self) -> flume::Receiver<T> {
        clone_receiver(&self.rx)
    }

    /// Another handle to the same pipe, for handing to a worker.
    pub fn handle(&self) -> Pipe<T> {
        Pipe {
            tx: clone_sender(&self.tx),
            rx: clone_receiver(&self.rx),
            completed: clone_flag(&self.completed),
        }
    }

    /// Enqueues a message; on failure the unsent message comes back.
    pub fn send(&self, v: T) -> (r: Result<(), T>)
        ensures
            r matches Err(u) ==> u == v,
    {
        channel_send(&self.tx, v)
    }

    /// Patient bounded receive with the pipe's standard patience.
    pub fn take_try_many(&self) -> (r: Result<T, ArchiverError>)
        ensures
            r matches Err(e) ==> (e is TryRecvError || e is LockPoisoned),
    {
        take_mutex_try_many(&self.rx, MAX_TRIES, DELAY_MS, &self.completed)
    }

    /// Marks the pipe completed; consumers see it at their next patient
    /// try.
    pub fn set_completed(&self) -> (r: Result<(), ArchiverError>)
        ensures
            r matches Err(e) ==> e is LockPoisoned,
    {
        set_mutex(&self.completed, true)
    }

    /// Reads the completion flag.
    pub fn get_completed(&self) -> (r: Result<bool, ArchiverError>)
        ensures
            r matches Err(e) ==> e is LockPoisoned,
    {
        get_mutex(&self.completed)
    }

    /// Blocking collection of exactly `ct_expect` items.
    pub fn collect_expected(&self, ct_expect: usize) -> (r: Result<Vec<T>, ArchiverError>)
        ensures
            r matches Ok(items) ==> items@.len() == ct_expect,
            r matches Err(e) ==> e == ArchiverError::RecvTimeoutError(
                TimeoutFailure::Disconnected,
            ),
    {
        collect_expected(ct_expect, &self.rx)
    }
}

/// Sends a worker's per-item result; when the send fails, an error the
/// message itself carried is recovered verbatim, and a lost success
/// becomes `ChannelClosed`.
pub fn send_worker_result<S>(
    pipe: &Pipe<Result<S, ArchiverError>>,
    msg: Result<S, ArchiverError>,
) -> (r: Result<(), ArchiverError>)
    ensures
        r matches Err(e) ==> (msg matches Err(inner) ==> e == inner) && (msg is Ok ==> e
            is ChannelClosed),
{
    match channel_send(&pipe.tx, msg) {
        Ok(()) => Ok(()),
        Err(unsent) => match unsent {
            Err(inner) => Err(inner),
            Ok(_) => Err(ArchiverError::ChannelClosed),
        },
    }
}

} // verus!
