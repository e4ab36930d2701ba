use daemon_thread::command::{BoardId, Command, Rgb, Target};
use daemon_thread::registry::TokenRegistry;

fn brightness(board: u64, index: u8, level: i32) -> Command {
    Command::Brightness { board: BoardId(board), index, brightness: level }
}

#[test]
fn second_command_for_a_target_supersedes_the_first() {
    let mut reg = TokenRegistry::new();
    let a = brightness(1, 0, 10);
    let b = brightness(1, 0, 200);
    let ta = reg.issue(a.target()).unwrap();
    let tb = reg.issue(b.target()).unwrap();
    assert_eq!(ta, 0);
    assert_eq!(tb, 1);
    assert!(reg.is_cancelled(a.target(), ta));
    assert!(!reg.is_cancelled(b.target(), tb));
}

#[test]
fn distinct_targets_do_not_supersede() {
    let mut reg = TokenRegistry::new();
    let cmds = vec![
        brightness(1, 0, 10),
        brightness(1, 1, 10),
        brightness(2, 0, 10),
        Command::Color { board: BoardId(1), index: 0, color: Rgb { red: 1, green: 2, blue: 3 } },
        Command::LedSave { board: BoardId(1) },
    ];
    let tickets: Vec<u64> = cmds.iter().map(|c| reg.issue(c.target()).unwrap()).collect();
    assert_eq!(tickets, vec![0, 1, 2, 3, 4]);
    for (c, t) in cmds.iter().zip(tickets.iter()) {
        assert!(!reg.is_cancelled(c.target(), *t));
    }
}

#[test]
fn payload_is_not_part_of_the_target() {
    let a = Command::KeyMap { board: BoardId(3), layer: 1, output: 2, input: 3, value: 7 };
    let b = Command::KeyMap { board: BoardId(3), layer: 1, output: 2, input: 3, value: 9 };
    let c = Command::KeyMap { board: BoardId(3), layer: 1, output: 2, input: 4, value: 7 };
    assert_eq!(a.target(), b.target());
    assert_ne!(a.target(), c.target());
    assert_eq!(
        a.target(),
        Target::KeyMap { board: BoardId(3), layer: 1, output: 2, input: 3 }
    );
    assert_eq!(
        Command::MatrixGetRate { rate: Some(5) }.target(),
        Command::MatrixGetRate { rate: None }.target()
    );
    assert_ne!(brightness(1, 0, 1).target(), Command::Mode { board: BoardId(1), layer: 0, mode: 1, speed: 2 }.target());
}

#[test]
fn unknown_target_is_not_cancelled() {
    let mut reg = TokenRegistry::new();
    assert!(!reg.is_cancelled(Target::Refresh, 0));
    let t = reg.issue(Target::Refresh).unwrap();
    assert!(!reg.is_cancelled(Target::Refresh, t));
    let u = reg.issue(Target::Refresh).unwrap();
    assert!(reg.is_cancelled(Target::Refresh, t));
    assert!(!reg.is_cancelled(Target::Refresh, u));
    assert!(!reg.is_cancelled(Target::Exit, t));
}
