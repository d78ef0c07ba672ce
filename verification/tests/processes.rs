use battle_net_manager::process::{
    battle_net_exe_in, find_battle_net_exe, get_battle_net_client_processes,
    get_battle_net_processes, get_processes_by_name, is_any_battle_net_process_running,
    is_battle_net_client_running, ExitStep,
    ExitWatch, DEFAULT_BATTLE_NET_EXE,
};

fn listing() -> Vec<u8> {
    concat_lines(&[
        "\"System Idle Process\",\"0\",\"Services\",\"0\",\"8 K\"",
        "\"Battle.net.exe\",\"1234\",\"Console\",\"1\",\"120,000 K\"",
        "\"Agent.exe\",\"42\",\"Console\",\"1\",\"10,000 K\"",
        "\"battle.net helper.exe\",\" 77 \",\"Console\",\"1\",\"5 K\"",
        "\"Battle.net.exe\",\"oops\",\"Console\",\"1\",\"5 K\"",
        "\"notepad.exe\",\"7\",\"Console\",\"1\",\"3 K\"",
    ])
}

fn concat_lines(lines: &[&str]) -> Vec<u8> {
    let mut text = String::new();
    for l in lines {
        text.push_str(l);
        text.push_str("\r\n");
    }
    text.into_bytes()
}

#[test]
fn processes_by_image_prefix() {
    let l = listing();
    assert_eq!(get_processes_by_name(&l, "battle.NET"), vec![1234, 77]);
    assert_eq!(get_processes_by_name(&l, "agent"), vec![42]);
    assert_eq!(get_processes_by_name(&l, "zzz"), Vec::<u32>::new());
}

#[test]
fn battle_net_processes_agent_first() {
    let l = listing();
    assert_eq!(get_battle_net_processes(&l), vec![42, 1234, 77]);
    assert_eq!(get_battle_net_client_processes(&l), vec![1234, 77]);
    assert!(is_battle_net_client_running(&l));
}

#[test]
fn empty_or_foreign_listing_has_no_client() {
    assert!(!is_battle_net_client_running(&Vec::new()));
    let l = concat_lines(&["\"explorer.exe\",\"100\",\"Console\",\"1\",\"1 K\""]);
    assert!(!is_battle_net_client_running(&l));
    assert_eq!(get_battle_net_processes(&l), Vec::<u32>::new());
}

#[test]
fn last_line_without_newline_and_lone_lines() {
    let l = b"\"Agent.exe\",\"5\"\n\n\"Agent.exe\",\"6\"".to_vec();
    assert_eq!(get_processes_by_name(&l, "Agent"), vec![5, 6]);
    let no_pid = b"\"Agent.exe\"\r\n".to_vec();
    assert_eq!(get_processes_by_name(&no_pid, "Agent"), Vec::<u32>::new());
}

#[test]
fn invalid_utf8_is_replaced_not_fatal() {
    let mut l = vec![0xff, 0xfe, b'\n'];
    l.extend_from_slice(b"\"Agent.exe\",\"9\"\n");
    assert_eq!(get_processes_by_name(&l, "agent"), vec![9]);
}

#[test]
fn exit_watch_times_out_at_the_deadline() {
    let mut w = ExitWatch::start(1_000, 3_000, 30_000);
    assert_eq!(w.deadline, 31_000);
    assert_eq!(w.step(31_000, false), ExitStep::TimedOut);
}

#[test]
fn exit_watch_needs_a_stable_absence() {
    let mut w = ExitWatch::start(0, 3_000, 30_000);
    assert_eq!(w.step(0, true), ExitStep::RequestCloseAndWait);
    assert_eq!(w.step(500, false), ExitStep::Wait);
    assert_eq!(w.empty_since, Some(500));
    assert_eq!(w.step(2_000, false), ExitStep::Wait);
    assert_eq!(w.step(2_500, true), ExitStep::RequestCloseAndWait);
    assert_eq!(w.empty_since, None);
    assert_eq!(w.step(3_000, false), ExitStep::Wait);
    assert_eq!(w.step(6_000, false), ExitStep::Exited);
}

#[test]
fn exit_watch_with_no_delay_exits_at_once() {
    let mut w = ExitWatch::start(10, 0, 100);
    assert_eq!(w.step(10, false), ExitStep::Exited);
}

#[test]
fn executable_locations() {
    assert_eq!(battle_net_exe_in("D:\\Games\\Battle.net"), "D:\\Games\\Battle.net\\Battle.net.exe");
    assert_eq!(find_battle_net_exe(true, &None, false), Some(DEFAULT_BATTLE_NET_EXE.to_string()));
    assert_eq!(
        find_battle_net_exe(false, &Some("E:\\BN".to_string()), true),
        Some("E:\\BN\\Battle.net.exe".to_string())
    );
    assert_eq!(find_battle_net_exe(false, &Some("E:\\BN".to_string()), false), None);
    assert_eq!(find_battle_net_exe(false, &None, true), None);
}

#[test]
fn any_battle_net_process_includes_the_agent() {
    let agent_only = concat_lines(&["\"Agent.exe\",\"42\",\"Console\",\"1\",\"10 K\""]);
    assert!(is_any_battle_net_process_running(&agent_only));
    assert!(!is_battle_net_client_running(&agent_only));
    assert!(is_any_battle_net_process_running(&listing()));
    let none = concat_lines(&["\"notepad.exe\",\"7\",\"Console\",\"1\",\"3 K\""]);
    assert!(!is_any_battle_net_process_running(&none));
}
