use daemon_thread::command::{BoardId, Command};
use daemon_thread::registry::TokenRegistry;
use daemon_thread::worker::{resolve, Dispatch, PollPlan, Worker, IDLE_POLL_MS};

#[test]
fn debounced_burst_reaches_the_device_once() {
    let mut reg = TokenRegistry::new();
    let mut w: Worker<()> = Worker::new();
    let a = Command::Brightness { board: BoardId(1), index: 0, brightness: 10 };
    let b = Command::Brightness { board: BoardId(1), index: 0, brightness: 99 };
    let ta = reg.issue(a.target()).unwrap();
    let tb = reg.issue(b.target()).unwrap();
    let da = w.handle(reg.is_cancelled(a.target(), ta), &a);
    let db = w.handle(reg.is_cancelled(b.target(), tb), &b);
    assert_eq!(da, Dispatch::Skip);
    assert_eq!(db, Dispatch::Device(b));
    assert_eq!(resolve(da.reply(Err("unused".to_string()))), Ok(()));
    assert_eq!(resolve(db.reply(Err("busy".to_string()))), Err("busy".to_string()));
}

#[test]
fn distinct_targets_run_in_issue_order() {
    let mut reg = TokenRegistry::new();
    let mut w: Worker<()> = Worker::new();
    let cmds = vec![
        Command::LedSave { board: BoardId(2) },
        Command::Brightness { board: BoardId(1), index: 0, brightness: 1 },
        Command::Mode { board: BoardId(1), layer: 0, mode: 3, speed: 4 },
    ];
    let tickets: Vec<u64> = cmds.iter().map(|c| reg.issue(c.target()).unwrap()).collect();
    let mut done = Vec::new();
    for (c, t) in cmds.iter().zip(tickets.iter()) {
        match w.handle(reg.is_cancelled(c.target(), *t), c) {
            Dispatch::Device(d) => done.push(d),
            other => panic!("unexpected {:?}", other),
        }
    }
    assert_eq!(done, cmds);
}

#[test]
fn shutdown_stops_and_later_commands_are_not_run() {
    let mut reg = TokenRegistry::new();
    let mut w: Worker<()> = Worker::new();
    let queue = vec![
        Command::LedSave { board: BoardId(1) },
        Command::Exit,
        Command::LedSave { board: BoardId(2) },
    ];
    let tickets: Vec<u64> = queue.iter().map(|c| reg.issue(c.target()).unwrap()).collect();
    let mut dispatched = Vec::new();
    for (c, t) in queue.iter().zip(tickets.iter()) {
        let d = w.handle(reg.is_cancelled(c.target(), *t), c);
        dispatched.push(d);
        if d == Dispatch::Stop {
            break;
        }
    }
    assert_eq!(
        dispatched,
        vec![Dispatch::Device(Command::LedSave { board: BoardId(1) }), Dispatch::Stop]
    );
    assert_eq!(Dispatch::Stop.reply(Err("x".to_string())), None);
    assert_eq!(resolve(Dispatch::Stop.reply(Ok(()))), Ok(()));
}

#[test]
fn poll_rate_switches_the_plan() {
    let mut w: Worker<()> = Worker::new();
    assert_eq!(w.poll_plan(), PollPlan { delay_ms: IDLE_POLL_MS, diff: false });
    assert_eq!(IDLE_POLL_MS, 100);
    assert_eq!(w.handle(false, &Command::MatrixGetRate { rate: Some(250) }), Dispatch::Done);
    assert_eq!(w.rate, Some(250));
    assert_eq!(w.poll_plan(), PollPlan { delay_ms: 250, diff: true });
    assert_eq!(w.handle(false, &Command::MatrixGetRate { rate: None }), Dispatch::Done);
    assert_eq!(w.poll_plan(), PollPlan { delay_ms: 100, diff: false });
}

#[test]
fn superseded_poll_rate_is_ignored() {
    let mut w: Worker<()> = Worker::new();
    assert_eq!(w.handle(true, &Command::MatrixGetRate { rate: Some(5) }), Dispatch::Skip);
    assert_eq!(w.rate, None);
}

#[test]
fn refresh_and_done_replies() {
    let mut w: Worker<()> = Worker::new();
    let d = w.handle(false, &Command::Refresh);
    assert_eq!(d, Dispatch::Refresh);
    assert_eq!(d.reply(Err("gone".to_string())), Some(Err("gone".to_string())));
    assert_eq!(Dispatch::Done.reply(Err("ignored".to_string())), Some(Ok(())));
    assert_eq!(Dispatch::Skip.reply(Ok(())), None);
    assert_eq!(resolve(None), Ok(()));
    assert_eq!(resolve(Some(Err("e".to_string()))), Err("e".to_string()));
}
