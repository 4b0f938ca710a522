use wasm_runtime_composer::inbox::{
    received, schedule, CallProgress, ChannelTask, Dispatch, Inbox, ReplySlots,
};
use wasm_runtime_composer::CompositionError;
use wasmtime::component::{Component, ComponentExportIndex};
use wasmtime::{Config, Engine};

fn index() -> ComponentExportIndex {
    let mut config = Config::new();
    config.wasm_component_model(true);
    let engine = Engine::new(&config).unwrap();
    let text = r#"(component
      (core module $m (func (export "f")))
      (core instance $i (instantiate $m))
      (func (export "f") (canon lift (core func $i "f"))))"#;
    Component::new(&engine, text).unwrap().get_export_index(None, "f").unwrap()
}

fn batch(flags: &[bool]) -> Vec<ChannelTask<usize>> {
    let export_index = index();
    flags
        .iter()
        .enumerate()
        .map(|(data, is_async)| ChannelTask { export_index, is_async: *is_async, data })
        .collect()
}

fn outline(dispatches: Vec<Dispatch<usize>>) -> Vec<Vec<usize>> {
    dispatches
        .into_iter()
        .map(|dispatch| match dispatch {
            Dispatch::Concurrent(tasks) => {
                assert!(tasks.iter().all(|task| task.is_async));
                tasks.iter().map(|task| task.data).collect()
            }
            Dispatch::Single(task) => {
                assert!(!task.is_async);
                vec![task.data]
            }
        })
        .collect()
}

#[test]
fn consecutive_async_calls_run_together() {
    let flags = [true, true, false, false, true, false, true, true, true];
    assert_eq!(
        outline(schedule(batch(&flags))),
        vec![vec![0, 1], vec![2], vec![3], vec![4], vec![5], vec![6, 7, 8]]
    );
    assert!(schedule(batch(&[])).is_empty());
}

#[test]
fn one_dispatch_runs_at_a_time() {
    let mut inbox = Inbox::new();
    assert!(inbox.next().is_none());
    assert!(inbox.receive(batch(&[true, true, false])));
    let first = inbox.next();
    assert_eq!(outline(first.into_iter().collect()), vec![vec![0, 1]]);
    // The next one has to wait, also if more is received meanwhile.
    assert!(inbox.next().is_none());
    assert!(inbox.receive(batch(&[true])));
    assert!(inbox.next().is_none());
    inbox.finished();
    let second = inbox.next();
    assert_eq!(outline(second.into_iter().collect()), vec![vec![2]]);
    inbox.finished();
    let third = inbox.next();
    assert_eq!(outline(third.into_iter().collect()), vec![vec![0]]);
    inbox.finished();
    assert!(inbox.next().is_none());
    assert!(!inbox.receive(batch(&[])));
}

#[test]
fn calls_of_different_batches_do_not_run_together() {
    let mut inbox = Inbox::new();
    assert!(inbox.receive(batch(&[true])));
    assert!(inbox.receive(batch(&[true])));
    assert_eq!(outline(inbox.next().into_iter().collect()), vec![vec![0]]);
    inbox.finished();
    assert_eq!(outline(inbox.next().into_iter().collect()), vec![vec![0]]);
}

#[test]
fn a_call_is_finished_with_after_it_returns() {
    let progress = CallProgress::start(true);
    assert!(matches!(progress, CallProgress::Calling));
    let progress = progress.advance(Ok(()));
    assert!(matches!(progress, CallProgress::Finishing));
    let progress = progress.advance(Ok(()));
    assert!(matches!(progress, CallProgress::Done(Ok(()))));
    let progress = progress.advance(Err(wasmtime::Error::msg("late")));
    assert!(matches!(progress, CallProgress::Done(Ok(()))));
}

#[test]
fn a_missing_function_is_replied() {
    assert!(matches!(
        CallProgress::start(false),
        CallProgress::Done(Err(CompositionError::FuncNotFound))
    ));
}

#[test]
fn an_error_ends_a_call() {
    for finishing in [false, true] {
        let mut progress = CallProgress::start(true);
        if finishing {
            progress = progress.advance(Ok(()));
        }
        match progress.advance(Err(wasmtime::Error::msg("trap"))) {
            CallProgress::Done(Err(CompositionError::Runtime(e))) => {
                assert_eq!(e.to_string(), "trap")
            }
            _ => panic!(),
        }
    }
}

#[test]
fn a_caller_learns_that_a_component_is_gone() {
    assert!(matches!(received(None), Err(CompositionError::Unavailable)));
    assert!(received(Some(Ok(()))).is_ok());
    assert!(matches!(
        received(Some(Err(CompositionError::FuncNotFound))),
        Err(CompositionError::FuncNotFound)
    ));
}

#[test]
fn a_reply_is_taken_once() {
    let mut slots = ReplySlots::new(vec![Some('a'), Some('b')]);
    assert_eq!(slots.len(), 2);
    assert_eq!(slots.take(1), Some('b'));
    assert_eq!(slots.take(1), None);
    let sent = slots.propagate_error(wasmtime::Error::msg("trap"));
    assert_eq!(sent.len(), 1);
    assert_eq!(sent[0].0, 'a');
    assert_eq!(slots.take(0), None);
}

#[test]
fn the_first_reply_left_gets_the_error() {
    let mut slots = ReplySlots::new(vec![Some('a'), Some('b'), None, Some('d')]);
    assert_eq!(slots.take(0), Some('a'));
    let sent = slots.propagate_error(wasmtime::Error::msg("trap"));
    assert_eq!(sent.iter().map(|(reply, _)| *reply).collect::<Vec<char>>(), vec!['b', 'd']);
    match &sent[0].1 {
        CompositionError::Runtime(e) => assert_eq!(e.to_string(), "trap"),
        other => panic!("{other:?}"),
    }
    assert!(matches!(sent[1].1, CompositionError::Unavailable));
    assert!(slots.propagate_error(wasmtime::Error::msg("again")).is_empty());
}
