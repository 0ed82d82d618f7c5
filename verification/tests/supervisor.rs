use ghost_hunter::supervisor::{
    Ending, Life, LifeEvent, Task, EVENT_CHANNEL, SCORE_CHANNEL, WORKER_THREADS,
};

fn joined(loader: bool, scoring: bool, dispatcher: bool) -> LifeEvent {
    LifeEvent::Joined { loader, scoring, dispatcher }
}

#[test]
fn analyzer_starts_runs_and_shuts_down() {
    let expected = [
        (LifeEvent::Started, Life::AwaitMap),
        (LifeEvent::MapReceived, Life::StartScoring),
        (LifeEvent::Started, Life::StartDispatcher),
        (LifeEvent::Started, Life::AwaitSignal),
        (LifeEvent::Signal, Life::Cancel),
        (LifeEvent::Cancelled, Life::Join),
        (joined(false, false, false), Life::Ended { ending: Ending::ShutDown }),
    ];
    let mut life = Life::Start;
    for (event, next) in expected {
        life = life.step(event);
        assert_eq!(life, next);
    }
}

#[test]
fn analyzer_ends_without_a_command_map() {
    let life = Life::AwaitMap.step(LifeEvent::MapLost);
    assert_eq!(life, Life::Ended { ending: Ending::NoMap });
}

#[test]
fn analyzer_ends_without_signal_handlers() {
    let life = Life::AwaitSignal.step(LifeEvent::SignalsFailed);
    assert_eq!(life, Life::Ended { ending: Ending::NoSignals });
}

#[test]
fn first_panicked_task_is_reported() {
    for (event, task) in [
        (joined(true, true, true), Task::Loader),
        (joined(true, false, false), Task::Loader),
        (joined(false, true, true), Task::Scoring),
        (joined(false, false, true), Task::Dispatcher),
    ] {
        let life = Life::Join.step(event);
        assert_eq!(life, Life::Ended { ending: Ending::Panicked { task } });
    }
}

#[test]
fn sizes_are_fixed() {
    assert_eq!(WORKER_THREADS, 4);
    assert_eq!(EVENT_CHANNEL, 1024);
    assert_eq!(SCORE_CHANNEL, 256);
}
