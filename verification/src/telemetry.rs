//! Timing of operations for metrics.

use crate::clock::instant_now;
use vstd::prelude::*;

verus! {

/// A timer started when an operation began, carrying the metric name and
/// labels under which its duration is recorded.
pub struct TimingGuard {
    name: &'static str,
    start: std::time::Instant,
    labels: Vec<(&'static str, String)>,
}

/// The value of a [`TimingGuard`]: its metric name, its labels and the
/// instant it started.
pub struct TimingGuardModel {
    pub name: Seq<char>,
    pub labels: Seq<(Seq<char>, Seq<char>)>,
    pub start: std::time::Instant,
}

/// The values of metric labels.
pub open spec fn labels_model(labels: Seq<(&'static str, String)>) -> Seq<(Seq<char>, Seq<char>)> {
    labels.map_values(|l: (&'static str, String)| (l.0@, l.1@))
}

impl View for TimingGuard {
    type V = TimingGuardModel;

    closed spec fn view(&self) -> TimingGuardModel {
        TimingGuardModel { name: self.name@, labels: labels_model(self.labels@), start: self.start }
    }
}

impl TimingGuard {
    /// Create a new timing guard, started now.
    pub fn new(name: &'static str, labels: Vec<(&'static str, String)>) -> (r: Self)
        ensures
            r@.name == name@,
            r@.labels == labels_model(labels@),
    {
        TimingGuard { name, start: instant_now(), labels }
    }

    /// The metric name.
    pub fn name(&self) -> (r: &'static str)
        ensures
            r@ == self@.name,
    {
        self.name
    }

    /// The metric labels.
    pub fn labels(&self) -> (r: &Vec<(&'static str, String)>)
        ensures
            labels_model(r@) == self@.labels,
    {
        &self.labels
    }

    /// The instant the timer started.
    pub fn started_at(&self) -> (r: std::time::Instant)
        ensures
            r == self@.start,
    {
        self.start
    }
}

/// Start timing an operation.
pub fn start_timer(name: &'static str) -> (r: TimingGuard)
    ensures
        r@.name == name@,
        r@.labels == Seq::<(Seq<char>, Seq<char>)>::empty(),
{
    let r = TimingGuard::new(name, Vec::new());
    assert(r@.labels =~= Seq::<(Seq<char>, Seq<char>)>::empty());
    r
}

/// Start timing an operation with labels.
pub fn start_timer_with_labels(name: &'static str, labels: Vec<(&'static str, String)>) -> (r:
    TimingGuard)
    ensures
        r@.name == name@,
        r@.labels == labels_model(labels@),
{
    TimingGuard::new(name, labels)
}

} // verus!
