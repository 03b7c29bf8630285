//! Progress notices for whoever wants to follow a long piece of work.
use vstd::prelude::*;
use std::sync::atomic::{AtomicU64, Ordering};
use std::sync::mpsc::{Receiver, Sender};
use std::sync::Arc;

verus! {

#[verifier::external_type_specification]
#[verifier::external_body]
#[verifier::reject_recursive_types(T)]
pub struct ExSender<T>(Sender<T>);

#[verifier::external_type_specification]
#[verifier::external_body]
#[verifier::reject_recursive_types(T)]
pub struct ExReceiver<T>(Receiver<T>);

/// A known amount of work and how much of it is done.
pub struct WorkInfo {
    pub completed: AtomicU64,
    pub total: u64,
    pub units: String,
}

impl WorkInfo {
    /// Whether the work is still in progress: less than the total is done.
    pub fn is_in_progress(&self) -> (r: bool)
        ensures
            r ==> self.total > 0,
    {
        let done = self.completed.load(Ordering::Relaxed);
        done < self.total
    }
}

/// A notice to the subscribers of a [`ProgressTracker`].
pub enum ProgressUpdate {
    /// A large piece of work.
    Step(String),
    /// The start of a batch of work.
    BeginStep(String),
    /// The end of a batch of work.
    EndStep(String),
    /// A known amount of work.
    Work(Arc<WorkInfo>),
}

/// Relies on `std::sync::mpsc::Sender::send`: hands `u` to the receiving end; a receiver that
/// is gone is no error here.
#[verifier::external_body]
fn send_update(s: &Sender<ProgressUpdate>, u: ProgressUpdate) {
    let _ = s.send(u);
}

/// Relies on `std::sync::mpsc::channel`: a fresh channel's two ends.
#[verifier::external_body]
fn new_channel() -> (Sender<ProgressUpdate>, Receiver<ProgressUpdate>) {
    std::sync::mpsc::channel()
}

/// Relies on `std::sync::mpsc::Receiver::recv`: the next notice, or none once every sender is
/// gone.
#[verifier::external_body]
fn receive_update(r: &Receiver<ProgressUpdate>) -> Option<ProgressUpdate> {
    r.recv().ok()
}

/// The receiving end of a subscription.
pub struct ProgressListener {
    pub receiver: Receiver<ProgressUpdate>,
}

impl ProgressListener {
    /// The next notice; none once the tracker is gone.
    pub fn next(&mut self) -> Option<ProgressUpdate> {
        receive_update(&self.receiver)
    }
}

/// Sends progress notices to its subscribers.
pub struct ProgressTracker {
    pub subscribers: Vec<Sender<ProgressUpdate>>,
}

/// Marks a known amount of work; dropping it marks the work as complete.
pub struct WorkGuard {
    pub info: Arc<WorkInfo>,
}

impl WorkGuard {
    /// Counts `amount` more units of the work as done.
    pub fn inc(&self, amount: u64) {
        let _ = self.info.completed.fetch_add(amount, Ordering::Relaxed);
    }
}

/// Relies on `AtomicU64::store`, which with `Relaxed` ordering neither panics nor waits: sets
/// the amount done to the total.
#[verifier::external_body]
fn mark_complete(info: &WorkInfo)
    opens_invariants none
    no_unwind
{
    info.completed.store(info.total, Ordering::Relaxed);
}

impl Drop for WorkGuard {
    fn drop(&mut self)
        opens_invariants none
        no_unwind
    {
        mark_complete(&self.info);
    }
}

impl ProgressTracker {
    /// A tracker without subscribers.
    pub fn new() -> (r: ProgressTracker)
        ensures
            r.subscribers@.len() == 0,
    {
        ProgressTracker { subscribers: Vec::new() }
    }

    fn notify(&self, message: &String, kind: u8) {
        let mut k: usize = 0;
        while k < self.subscribers.len()
            invariant
                k <= self.subscribers@.len(),
            decreases self.subscribers@.len() - k,
        {
            let m = message.clone();
            let u = if kind == 0 {
                ProgressUpdate::Step(m)
            } else if kind == 1 {
                ProgressUpdate::BeginStep(m)
            } else {
                ProgressUpdate::EndStep(m)
            };
            send_update(&self.subscribers[k], u);
            k = k + 1;
        }
    }

    /// Tells the subscribers of a step of a process.
    pub fn step(&self, message: String) {
        self.notify(&message, 0);
    }

    /// Tells the subscribers that a step of a process begins.
    pub fn begin_step(&self, message: String) {
        self.notify(&message, 1);
    }

    /// Tells the subscribers that a step of a process ended.
    pub fn end_step(&self, message: String) {
        self.notify(&message, 2);
    }

    /// Tells the subscribers that `total` units of work are about to be done.
    pub fn doing_work(&self, total: u64, units: String) -> (r: WorkGuard)
        ensures
            r.info.total == total,
            r.info.units == units,
    {
        let info = Arc::new(WorkInfo { completed: AtomicU64::new(0), total, units });
        let mut k: usize = 0;
        while k < self.subscribers.len()
            invariant
                k <= self.subscribers@.len(),
                info.total == total,
                info.units == units,
            decreases self.subscribers@.len() - k,
        {
            send_update(&self.subscribers[k], ProgressUpdate::Work(info.clone()));
            k = k + 1;
        }
        WorkGuard { info }
    }

    /// Subscribes to this tracker's notices.
    pub fn subscribe(&mut self) -> (r: ProgressListener)
        ensures
            final(self).subscribers@.len() == old(self).subscribers@.len() + 1,
    {
        let (sender, receiver) = new_channel();
        self.subscribers.push(sender);
        ProgressListener { receiver }
    }
}

} // verus!
