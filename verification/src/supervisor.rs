//! The life of the analyzer: which tasks start when, and how it ends.

use vstd::prelude::*;

verus! {

/// Number of worker threads.
pub const WORKER_THREADS: usize = 4;

/// Capacity of the channel from the loader to the scoring task.
pub const EVENT_CHANNEL: usize = 1024;

/// Capacity of the channel from the scoring task to the dispatcher.
pub const SCORE_CHANNEL: usize = 256;

/// The tasks of the analyzer.
#[derive(Clone, Copy, Debug, PartialEq, Eq, Structural)]
pub enum Task {
    Loader,
    Scoring,
    Dispatcher,
}

/// Why the loop of a task is left.
#[derive(Clone, Copy, Debug, PartialEq, Eq, Structural)]
pub enum TaskStop {
    Cancelled,
    ChannelClosed,
}

/// Where the analyzer stands.
#[derive(Clone, Copy, Debug, PartialEq, Eq, Structural)]
pub enum Life {
    /// Nothing runs.
    Start,
    /// The loader runs; its command map is awaited.
    AwaitMap,
    /// The command map is there; the scoring task is to be started.
    StartScoring,
    /// The dispatcher is to be started, with the command map.
    StartDispatcher,
    /// All tasks run until a signal.
    AwaitSignal,
    /// A signal came; the tasks are to be cancelled.
    Cancel,
    /// The tasks are cancelled and are waited for.
    Join,
    /// The analyzer is left.
    Ended { ending: Ending },
}

/// How the analyzer ends.
#[derive(Clone, Copy, Debug, PartialEq, Eq, Structural)]
pub enum Ending {
    ShutDown,
    /// The loader ended before it handed over the command map.
    NoMap,
    /// The signal handlers could not be installed.
    NoSignals,
    /// A task panicked.
    Panicked { task: Task },
}

/// What the analyzer is told.
#[derive(Clone, Copy, Debug, PartialEq, Eq, Structural)]
pub enum LifeEvent {
    Started,
    MapReceived,
    MapLost,
    Signal,
    SignalsFailed,
    Cancelled,
    /// Which tasks panicked, once all have ended.
    Joined { loader: bool, scoring: bool, dispatcher: bool },
}

impl Life {
    /// Whether an event can come in this state.
    pub open spec fn accepts(self, event: LifeEvent) -> bool {
        match event {
            LifeEvent::Started => self is Start || self is StartScoring || self is StartDispatcher,
            LifeEvent::MapReceived | LifeEvent::MapLost => self is AwaitMap,
            LifeEvent::Signal | LifeEvent::SignalsFailed => self is AwaitSignal,
            LifeEvent::Cancelled => self is Cancel,
            LifeEvent::Joined { .. } => self is Join,
        }
    }

    /// The ending for the tasks that panicked: the first in the order of their
    /// start is reported.
    pub open spec fn verdict(loader: bool, scoring: bool, dispatcher: bool) -> Ending {
        if loader {
            Ending::Panicked { task: Task::Loader }
        } else if scoring {
            Ending::Panicked { task: Task::Scoring }
        } else if dispatcher {
            Ending::Panicked { task: Task::Dispatcher }
        } else {
            Ending::ShutDown
        }
    }

    /// The state after an event.
    pub open spec fn after(self, event: LifeEvent) -> Life {
        match event {
            LifeEvent::Started => match self {
                Life::Start => Life::AwaitMap,
                Life::StartScoring => Life::StartDispatcher,
                _ => Life::AwaitSignal,
            },
            LifeEvent::MapReceived => Life::StartScoring,
            LifeEvent::MapLost => Life::Ended { ending: Ending::NoMap },
            LifeEvent::Signal => Life::Cancel,
            LifeEvent::SignalsFailed => Life::Ended { ending: Ending::NoSignals },
            LifeEvent::Cancelled => Life::Join,
            LifeEvent::Joined { loader, scoring, dispatcher } => Life::Ended {
                ending: Self::verdict(loader, scoring, dispatcher),
            },
        }
    }

    /// Moves on with an event.
    pub fn step(self, event: LifeEvent) -> (next: Life)
        requires
            self.accepts(event),
        ensures
            next == self.after(event),
    {
        match event {
            LifeEvent::Started => match self {
                Life::Start => Life::AwaitMap,
                Life::StartScoring => Life::StartDispatcher,
                _ => Life::AwaitSignal,
            },
            LifeEvent::MapReceived => Life::StartScoring,
            LifeEvent::MapLost => Life::Ended { ending: Ending::NoMap },
            LifeEvent::Signal => Life::Cancel,
            LifeEvent::SignalsFailed => Life::Ended { ending: Ending::NoSignals },
            LifeEvent::Cancelled => Life::Join,
            LifeEvent::Joined { loader, scoring, dispatcher } => {
                let ending = if loader {
                    Ending::Panicked { task: Task::Loader }
                } else if scoring {
                    Ending::Panicked { task: Task::Scoring }
                } else if dispatcher {
                    Ending::Panicked { task: Task::Dispatcher }
                } else {
                    Ending::ShutDown
                };
                Life::Ended { ending }
            },
        }
    }
}

/// Whether `states` is what the analyzer goes through on `events`.
pub open spec fn life(states: Seq<Life>, events: Seq<LifeEvent>) -> bool {
    &&& states.len() == events.len() + 1
    &&& states[0] == Life::Start
    &&& forall|i: int|
        #![trigger events[i]]
        0 <= i < events.len() ==> states[i].accepts(events[i]) && states[i + 1] == states[i].after(
            events[i],
        )
}

/// Law: the scoring task and the dispatcher are started only after the command
/// map was received, and the tasks are waited for only after a signal came and
/// they were cancelled.
pub proof fn law_life_order(states: Seq<Life>, events: Seq<LifeEvent>, i: int)
    requires
        life(states, events),
        0 <= i < states.len(),
    ensures
        states[i] is StartScoring || states[i] is StartDispatcher || states[i] is AwaitSignal
            || states[i] is Cancel || states[i] is Join ==> i >= 2 && events[1]
            == LifeEvent::MapReceived,
        states[i] is Cancel || states[i] is Join ==> i >= 5 && events[4] == LifeEvent::Signal,
        states[i] is Join ==> i == 6 && events[5] == LifeEvent::Cancelled,
{
    lemma_life_positions(states, events, i);
    if i >= 2 {
        lemma_life_positions(states, events, 1);
        assert(states[2] == states[1].after(events[1]));
        assert(states[1] == states[0].after(events[0]));
        lemma_life_positions(states, events, 2);
    }
    if i >= 3 {
        lemma_life_positions(states, events, 3);
        assert(states[3] == states[2].after(events[2]));
    }
    if i >= 5 {
        lemma_life_positions(states, events, 4);
        lemma_life_positions(states, events, 5);
        assert(states[4] == states[3].after(events[3]));
        assert(states[5] == states[4].after(events[4]));
    }
    if i >= 6 {
        assert(states[6] == states[5].after(events[5]));
    }
}

/// The states come in one order, up to where the analyzer ends.
proof fn lemma_life_positions(states: Seq<Life>, events: Seq<LifeEvent>, i: int)
    requires
        life(states, events),
        0 <= i < states.len(),
    ensures
        states[i] is Start <==> i == 0,
        states[i] is AwaitMap <==> i == 1,
        states[i] is StartScoring ==> i == 2,
        states[i] is StartDispatcher ==> i == 3,
        states[i] is AwaitSignal ==> i == 4,
        states[i] is Cancel ==> i == 5,
        states[i] is Join ==> i == 6,
        states[i] is Ended ==> i + 1 == states.len(),
    decreases i,
{
    if i > 0 {
        lemma_life_positions(states, events, i - 1);
        assert(states[i] == states[i - 1].after(events[i - 1]));
    }
    if i < events.len() {
        assert(states[i].accepts(events[i]));
    }
}

/// Law: the analyzer ends in one of three ways. It ends at once where the
/// command map is lost, and where no signal handlers can be installed. Else it
/// ends after a signal, when all tasks have ended, and shuts down cleanly
/// exactly where none of them panicked; the first that did is named.
pub proof fn law_how_the_analyzer_ends(states: Seq<Life>, events: Seq<LifeEvent>, ending: Ending)
    requires
        life(states, events),
        states.last() == (Life::Ended { ending }),
    ensures
        events.len() >= 2,
        events[0] == LifeEvent::Started,
        ({
            ||| {
                &&& events.len() == 2
                &&& events[1] == LifeEvent::MapLost
                &&& ending == Ending::NoMap
            }
            ||| {
                &&& events.len() == 5
                &&& events[1] == LifeEvent::MapReceived
                &&& events[2] == LifeEvent::Started
                &&& events[3] == LifeEvent::Started
                &&& events[4] == LifeEvent::SignalsFailed
                &&& ending == Ending::NoSignals
            }
            ||| {
                &&& events.len() == 7
                &&& events[1] == LifeEvent::MapReceived
                &&& events[2] == LifeEvent::Started
                &&& events[3] == LifeEvent::Started
                &&& events[4] == LifeEvent::Signal
                &&& events[5] == LifeEvent::Cancelled
                &&& events[6] is Joined
                &&& ending == Ending::ShutDown <==> events[6] == (LifeEvent::Joined {
                    loader: false,
                    scoring: false,
                    dispatcher: false,
                })
                &&& ending == (Ending::Panicked { task: Task::Loader })
                    <==> events[6]->Joined_loader
                &&& ending == (Ending::Panicked { task: Task::Scoring })
                    <==> !events[6]->Joined_loader && events[6]->Joined_scoring
                &&& ending == (Ending::Panicked { task: Task::Dispatcher })
                    <==> !events[6]->Joined_loader && !events[6]->Joined_scoring
                    && events[6]->Joined_dispatcher
            }
        }),
{
    let n = events.len() as int;
    lemma_life_positions(states, events, n);
    assert(n > 0);
    lemma_life_step(states, events, 0);
    assert(n > 1);
    lemma_life_step(states, events, 1);
    if n > 2 {
        lemma_life_positions(states, events, 2);
        lemma_life_step(states, events, 2);
        assert(n > 3);
        lemma_life_step(states, events, 3);
        assert(n > 4);
        lemma_life_step(states, events, 4);
        if n > 5 {
            lemma_life_positions(states, events, 5);
            lemma_life_step(states, events, 5);
            assert(n > 6);
            lemma_life_step(states, events, 6);
            lemma_life_positions(states, events, 7);
        }
    }
}

proof fn lemma_life_step(states: Seq<Life>, events: Seq<LifeEvent>, i: int)
    requires
        life(states, events),
        0 <= i < events.len(),
    ensures
        states[i].accepts(events[i]),
        states[i + 1] == states[i].after(events[i]),
{
    assert(events[i] == events[i]);
}

} // verus!
