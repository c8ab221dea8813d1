use listprocs::bytes::{parse_i32, parse_u64, split_bytes};
use listprocs::darwin::{short_name, ticks_to_duration as mach_ticks};
use listprocs::fields::{sort_processes, Field, TableArgs};
use listprocs::filter::ProcessFilter;
use listprocs::linux::{build_record, device_name, join_cmd_line, parse_stat, ticks_to_duration, SystemFacts};
use listprocs::procargs::{join_args, parse_procargs};
use listprocs::process_info::{recover, sip_prefixes, QueryFailure, Recovery};
use listprocs::text::{format_mem, mark_first};
use listprocs::tree::{create_tree, render_tree, TreeOptions};
use listprocs::user_filter::{Parser, UserFilter, UserFilterError};
use listprocs::{Info, Pid, ProcessInfo, Uid};
use regex::RegexBuilder;
use std::cmp::Ordering;

fn record(uid: u32, user: &str, defunct: bool, parent: i32, cmd: &str) -> ProcessInfo {
    ProcessInfo {
        is_defunct: defunct,
        parent_pid: Info::Present(Pid(parent)),
        uid: Info::Present(Uid(uid)),
        username: Info::Present(user.to_string()),
        path: Info::Present(Some(format!("/usr/bin/{cmd}"))),
        cmd_line: Info::Present(Some(cmd.to_string())),
        name: Info::Present(cmd.to_string()),
        cpu_usage: Info::Present(0),
        cpu_time: Info::Present(0),
        mem_usage: Info::Present(0),
        virtual_mem_size: Info::Present(0),
        physical_mem_size: Info::Present(0),
        controlling_tty: Info::Present(None),
        start_time: Info::Unauthorized,
    }
}

fn unset_filter() -> ProcessFilter {
    ProcessFilter {
        regex: None,
        invert_regex: false,
        uids: vec![],
        usernames: vec![],
        include_defunct: true,
        include_sip: true,
        sip_prefixes: vec![],
    }
}

fn pids(v: &[(Pid, ProcessInfo)]) -> Vec<i32> {
    v.iter().map(|(p, _)| p.0).collect()
}

#[test]
fn user_and_defunct_filter_example() {
    let records = vec![
        (Pid(1), record(0, "root", false, 0, "init")),
        (Pid(2), record(1000, "alice", false, 1, "sh")),
        (Pid(3), record(0, "root", true, 1, "zombie")),
    ];
    let filter = ProcessFilter {
        usernames: vec!["root".to_string()],
        include_defunct: false,
        ..unset_filter()
    };
    let kept = ProcessInfo::apply_filter(records, &filter);
    assert_eq!(pids(&kept), vec![1]);
}

#[test]
fn unset_filter_keeps_everything() {
    let records = vec![
        (Pid(5), record(0, "root", true, 0, "a")),
        (Pid(2), record(7, "bob", false, 5, "b")),
        (Pid(9), record(8, "eve", false, 2, "c")),
    ];
    let kept = ProcessInfo::apply_filter(records, &unset_filter());
    assert_eq!(pids(&kept), vec![5, 2, 9]);
}

#[test]
fn owner_by_uid_or_name() {
    let filter = ProcessFilter { uids: vec![Uid(7)], usernames: vec!["eve".to_string()], ..unset_filter() };
    assert!(record(7, "bob", false, 0, "x").filter(Pid(1), &filter));
    assert!(record(8, "eve", false, 0, "x").filter(Pid(1), &filter));
    assert!(!record(9, "mallory", false, 0, "x").filter(Pid(1), &filter));
    let mut denied = record(9, "x", false, 0, "x");
    denied.uid = Info::Unauthorized;
    denied.username = Info::Unauthorized;
    assert!(!denied.filter(Pid(1), &filter));
}

#[test]
fn regex_matches_path_or_command_and_inverts() {
    let re = RegexBuilder::new("SSHD").case_insensitive(true).build().unwrap();
    let filter = ProcessFilter { regex: Some(re.clone()), ..unset_filter() };
    assert!(record(0, "root", false, 0, "sshd").filter(Pid(1), &filter));
    assert!(!record(0, "root", false, 0, "bash").filter(Pid(1), &filter));
    let inverted = ProcessFilter { regex: Some(re), invert_regex: true, ..unset_filter() };
    assert!(!record(0, "root", false, 0, "sshd").filter(Pid(1), &inverted));
    assert!(record(0, "root", false, 0, "bash").filter(Pid(1), &inverted));
}

#[test]
fn regex_sees_defunct_placeholder() {
    let re = RegexBuilder::new("defunct").build().unwrap();
    let filter = ProcessFilter { regex: Some(re), ..unset_filter() };
    let mut z = record(0, "root", true, 0, "z");
    z.path = Info::Defunct;
    z.cmd_line = Info::Defunct;
    assert!(z.filter(Pid(3), &filter));
}

#[test]
fn protected_paths_are_hidden_unless_included() {
    let prefixes = sip_prefixes();
    assert_eq!(prefixes.len(), 8);
    assert_eq!(prefixes[2], "/usr/bin");
    let filter = ProcessFilter { include_sip: false, sip_prefixes: prefixes, ..unset_filter() };
    assert!(!record(0, "root", false, 0, "ls").filter(Pid(1), &filter));
    let mut other = record(0, "root", false, 0, "ls");
    other.path = Info::Present(Some("/opt/ls".to_string()));
    assert!(other.filter(Pid(1), &filter));
}

#[test]
fn sort_is_stable_and_ordered() {
    let records = vec![
        (Pid(4), record(2, "b", false, 0, "x")),
        (Pid(1), record(1, "a", false, 0, "y")),
        (Pid(3), record(2, "b", false, 0, "z")),
        (Pid(2), record(1, "a", false, 0, "w")),
    ];
    let sorted = sort_processes(records, &vec![Field::Uid]);
    assert_eq!(pids(&sorted), vec![1, 2, 4, 3]);
}

#[test]
fn sort_by_two_keys() {
    let records = vec![
        (Pid(4), record(2, "b", false, 0, "x")),
        (Pid(1), record(1, "a", false, 0, "y")),
        (Pid(3), record(2, "b", false, 0, "a")),
        (Pid(2), record(1, "a", false, 0, "b")),
    ];
    let sorted = sort_processes(records, &vec![Field::Username, Field::CmdLine]);
    assert_eq!(pids(&sorted), vec![2, 1, 3, 4]);
}

#[test]
fn missing_values_sort_first() {
    let mut denied = record(5, "z", false, 0, "a");
    denied.uid = Info::Unauthorized;
    let mut gone = record(5, "z", true, 0, "a");
    gone.uid = Info::Defunct;
    let records = vec![(Pid(1), record(0, "root", false, 0, "a")), (Pid(2), denied), (Pid(3), gone)];
    let sorted = sort_processes(records, &vec![Field::Uid]);
    assert_eq!(pids(&sorted), vec![3, 2, 1]);
}

#[test]
fn compare_single_field() {
    let a = (Pid(1), record(0, "root", false, 0, "a"));
    let b = (Pid(2), record(0, "root", false, 0, "b"));
    assert_eq!(Field::Pid.compare(&a, &b), Ordering::Less);
    assert_eq!(Field::Uid.compare(&a, &b), Ordering::Equal);
    assert_eq!(Field::CmdLine.compare(&b, &a), Ordering::Greater);
}

#[test]
fn sorted_processes_filters_then_sorts() {
    let args = TableArgs { cols: vec![Field::Pid], sort: vec![Field::Pid], plain: false, ps_compat: false };
    let records = vec![
        (Pid(9), record(0, "root", false, 0, "a")),
        (Pid(3), record(0, "root", true, 0, "b")),
        (Pid(5), record(0, "root", false, 0, "c")),
    ];
    let filter = ProcessFilter { include_defunct: false, ..unset_filter() };
    assert_eq!(pids(&args.sorted_processes_info(records, &filter)), vec![5, 9]);
}

#[test]
fn tree_includes_ancestors_from_scope() {
    let full = vec![
        (Pid(1), record(0, "root", false, 0, "init")),
        (Pid(10), record(0, "root", false, 1, "sshd")),
        (Pid(20), record(0, "root", false, 10, "bash")),
        (Pid(30), record(0, "root", false, 1, "cron")),
    ];
    let selected = vec![(Pid(20), record(0, "root", false, 10, "bash"))];
    let tree = create_tree(&selected, &full);
    let nodes: Vec<(i32, Option<i32>)> = tree.nodes.iter().map(|(p, q)| (p.0, q.map(|q| q.0))).collect();
    assert_eq!(nodes, vec![(1, None), (10, Some(1)), (20, Some(10))]);
    let alone = create_tree(&selected, &selected);
    assert_eq!(alone.nodes.len(), 1);
    assert_eq!(alone.nodes[0].1, None);
}

#[test]
fn tree_renders_branches() {
    let full = vec![
        (Pid(1), record(0, "root", false, 0, "init")),
        (Pid(10), record(0, "root", false, 1, "sshd")),
        (Pid(20), record(0, "root", false, 10, "bash")),
        (Pid(30), record(0, "root", false, 1, "cron")),
    ];
    let tree = create_tree(&full, &full);
    let lines = render_tree(&tree, &full, &TreeOptions { use_box_drawing: true, terminal_width: None });
    assert_eq!(lines, vec!["─┬ 1 init", " ├┬ 10 sshd", " │└─ 20 bash", " └─ 30 cron"]);
    let ascii = render_tree(&tree, &full, &TreeOptions { use_box_drawing: false, terminal_width: Some(11) });
    assert_eq!(ascii, vec!["-- 1 init", " |- 10 sshd", " |\\- 20 ba…", " \\- 30 cron"]);
}

#[test]
fn user_filter_entries() {
    assert!(matches!(Parser.parse_ref("-", Uid(501)), Ok(UserFilter::Uid(Uid(501)))));
    assert!(matches!(Parser.parse_ref("42", Uid(501)), Ok(UserFilter::Uid(Uid(42)))));
    match Parser.parse_ref("alice", Uid(501)) {
        Ok(UserFilter::Username(n)) => assert_eq!(n, "alice"),
        _ => panic!("expected a user name"),
    }
    match Parser.parse_ref("99999999999", Uid(501)) {
        Ok(UserFilter::Username(n)) => assert_eq!(n, "99999999999"),
        _ => panic!("expected a user name"),
    }
    assert!(matches!(Parser.parse_ref("", Uid(501)), Err(UserFilterError::Empty)));
}

#[test]
fn ids_parse() {
    assert_eq!(Uid::parse("+17"), Some(Uid(17)));
    assert_eq!(Uid::parse("4294967296"), None);
    assert_eq!(Pid::parse("2147483647"), Some(Pid(2147483647)));
    assert_eq!(Pid::parse("12a"), None);
    assert_eq!(Pid::parse(""), None);
}

#[test]
fn info_text() {
    let a: Info<Option<String>> = Info::Present(None);
    assert_eq!(a.to_str(), "<unknown>");
    let b: Info<String> = Info::Unauthorized;
    assert_eq!(b.to_str(), "<unauthorized>");
    let c: Info<String> = Info::Defunct;
    assert_eq!(c.to_str(), "<defunct>");
    assert_eq!(Info::Present(3).map(|x| x * 2), Info::Present(6));
    assert!(Info::<u8>::Defunct < Info::Unauthorized);
    assert!(Info::Unauthorized < Info::Present(0u8));
}

#[test]
fn memory_sizes() {
    assert_eq!(format_mem(0), "0.0 B");
    assert_eq!(format_mem(1023), "1023.0 B");
    assert_eq!(format_mem(1536), "1.5 KiB");
    assert_eq!(format_mem(1048576), "1.0 MiB");
    assert_eq!(format_mem(u64::MAX), "16.0 EiB");
}

#[test]
fn first_marks() {
    assert_eq!(mark_first(vec!['a', 'b']), vec![(true, 'a'), (false, 'b')]);
}

#[test]
fn terminal_devices() {
    assert_eq!(device_name(4 << 8), "/dev/tty0");
    assert_eq!(device_name((4 << 8) | 65), "/dev/ttyS1");
    assert_eq!(device_name(136 << 8 | 3), "/dev/pts/3");
    assert_eq!(device_name((3 << 8) | 0x12), "/dev/ttyq2");
    assert_eq!(device_name(8 << 8 | 1), "8.1");
}

#[test]
fn clock_ticks() {
    assert_eq!(ticks_to_duration(250, 100), 2_500_000_000);
    assert_eq!(mach_ticks(1000, 125, 3), 41666);
}

#[test]
fn stat_line_parses() {
    let line = b"42 (my (odd) proc) S 1 42 42 34816 42 4194304 100 0 0 0 150 25 0 0 20 0 1 0 12345 1048576 256 18446744073709551615 0 0 0 0 0 0 0 0 0 0 0 0 17 3 0 0 0 0 0\n".to_vec();
    let s = parse_stat(&line).unwrap();
    assert_eq!(s.name, b"my (odd) proc".to_vec());
    assert_eq!(s.state, b'S');
    assert_eq!(s.parent_pid, 1);
    assert_eq!(s.tty_dev_number, 34816);
    assert_eq!(s.cpu_user_time, 150);
    assert_eq!(s.cpu_system_time, 25);
    assert_eq!(s.start_time, 12345);
    assert_eq!(s.vm_size, 1048576);
    assert_eq!(s.rss, 256);
    assert!(parse_stat(&b"42 (x) S 1 2".to_vec()).is_none());
    assert!(parse_stat(&b"no brackets".to_vec()).is_none());
    let mut bad = line.clone();
    let at = bad.len() - 4;
    bad[at] = 0xff;
    assert!(parse_stat(&bad).is_none());
}

#[test]
fn linux_record() {
    let line = b"7 (zz) Z 3 7 7 0 7 0 0 0 0 0 100 100 0 0 20 0 1 0 500 4096 10 0".to_vec();
    let s = parse_stat(&line).unwrap();
    let facts = SystemFacts {
        now: 10_000_000_000,
        uptime: 8_000_000_000,
        ticks_per_second: 100,
        page_size: 4096,
        total_ram: 409600,
    };
    let r = build_record(&s, Uid(0), "root".into(), "zz".into(), &facts, Info::Present(None), Info::Present(None));
    assert!(r.is_defunct);
    assert_eq!(r.path, Info::Defunct);
    assert_eq!(r.start_time, Info::Present(7_000_000_000));
    assert_eq!(r.cpu_time, Info::Present(2_000_000_000));
    assert_eq!(r.cpu_usage, Info::Present(6666));
    assert_eq!(r.physical_mem_size, Info::Present(40960));
    assert_eq!(r.mem_usage, Info::Present(1000));
    assert_eq!(r.controlling_tty, Info::Present(None));
    assert_eq!(r.parent_pid, Info::Present(Pid(3)));
}

#[test]
fn failed_queries() {
    assert_eq!(recover(QueryFailure::NoSuchProcess, false), Recovery::Defunct);
    assert_eq!(recover(QueryFailure::PermissionDenied, true), Recovery::Unauthorized);
    assert_eq!(recover(QueryFailure::PermissionDenied, false), Recovery::SkipSilently);
    assert_eq!(recover(QueryFailure::Other, true), Recovery::Report);
}

#[test]
fn cmdline_bytes() {
    assert_eq!(join_cmd_line(&b"ls\0-l\0".to_vec()), Some(b"ls -l ".to_vec()));
    assert_eq!(join_cmd_line(&vec![]), None);
}

#[test]
fn procargs_buffer() {
    let mut buf = vec![2, 0, 0, 0];
    buf.extend_from_slice(b"/bin/ls\0\0\0ls\0-la\0PATH=/bin\0");
    let args = parse_procargs(&buf).unwrap();
    assert_eq!(args, vec![b"ls".to_vec(), b"-la".to_vec()]);
    assert_eq!(join_args(&args), b"ls -la".to_vec());
    assert_eq!(parse_procargs(&vec![1, 0]), None);
    let mut empty = vec![1, 0, 0, 0];
    empty.extend_from_slice(b"/bin/ls\0\0\0");
    assert_eq!(parse_procargs(&empty), None);
}

#[test]
fn darwin_helpers() {
    assert_eq!(short_name(&b"launchd\0\0\0".to_vec()), b"launchd".to_vec());
    assert_eq!(short_name(&b"abc".to_vec()), b"abc".to_vec());
    let gone = ProcessInfo::defunct();
    assert!(gone.is_defunct);
    assert_eq!(gone.uid, Info::Defunct);
}

#[test]
fn byte_numbers() {
    assert_eq!(parse_u64(&b"18446744073709551615".to_vec()), Some(u64::MAX));
    assert_eq!(parse_u64(&b"18446744073709551616".to_vec()), None);
    assert_eq!(parse_i32(&b"-2147483648".to_vec()), Some(i32::MIN));
    assert_eq!(parse_i32(&b"-".to_vec()), None);
    assert_eq!(split_bytes(&b"a  b".to_vec(), 0, b' '), vec![b"a".to_vec(), vec![], b"b".to_vec()]);
}
