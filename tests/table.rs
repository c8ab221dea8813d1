use listprocs::fields::{Field, TableArgs};
use listprocs::fit::fit_widths;
use listprocs::table::{Builder, Cell, Column, Style};
use listprocs::text::truncate_string;
use listprocs::{Info, Pid, ProcessInfo, Uid};

fn record(uid: u32, user: &str, defunct: bool) -> ProcessInfo {
    ProcessInfo {
        is_defunct: defunct,
        parent_pid: Info::Present(Pid(1)),
        uid: Info::Present(Uid(uid)),
        username: Info::Present(user.to_string()),
        path: Info::Present(Some("/usr/bin/app".to_string())),
        cmd_line: Info::Present(Some("app --flag".to_string())),
        name: Info::Present("app".to_string()),
        cpu_usage: Info::Present(1234),
        cpu_time: Info::Present(61_500_000_000),
        mem_usage: Info::Present(50),
        virtual_mem_size: Info::Present(1536),
        physical_mem_size: Info::Present(2048),
        controlling_tty: Info::Present(None),
        start_time: Info::Unauthorized,
    }
}

fn cell(text: &str) -> Cell {
    Cell { text: text.to_string(), width: text.chars().count() }
}

#[test]
fn pid_width_counts_digits_of_largest() {
    let args = TableArgs { cols: vec![Field::Pid], sort: vec![], plain: false, ps_compat: false };
    let records = vec![(Pid(7), record(0, "root", false)), (Pid(1234), record(0, "root", false))];
    let rows = args.rows(&records, 0);
    assert_eq!(rows[0][0].width, 1);
    assert_eq!(rows[1][0].width, 4);
    let mut template = args.table_template(true);
    let out = template.format(&rows, None);
    assert_eq!(template.columns[0].width, 4);
    let lines: Vec<&str> = out.lines().collect();
    assert_eq!(lines[1], "│ PID  │");
    assert_eq!(lines[3], "│ 7    │");
    assert_eq!(lines[4], "│ 1234 │");
}

#[test]
fn shrink_two_columns_to_forty() {
    let r = fit_widths(&vec![50, 10], &vec![true, true], 0, 40);
    assert_eq!(r, vec![27, 13]);
    assert_eq!(r[0] + r[1], 40);
    assert!(50 - r[0] > 20);
}

#[test]
fn blend_leans_proportional_for_large_excess() {
    // Just over the target: mostly an even split of the room.
    let small = fit_widths(&vec![30, 10], &vec![true, true], 0, 39);
    assert_eq!(small.iter().sum::<usize>(), 39);
    // Far over the target: mostly a cut in proportion to each width.
    let large = fit_widths(&vec![300, 100], &vec![true, true], 0, 40);
    assert_eq!(large.iter().sum::<usize>(), 40);
    assert!(large[0] > 2 * large[1]);
}

#[test]
fn fit_leaves_narrow_table_alone() {
    let r = fit_widths(&vec![5, 6], &vec![true, false], 3, 40);
    assert_eq!(r, vec![5, 6]);
}

#[test]
fn fit_keeps_fixed_columns() {
    let r = fit_widths(&vec![20, 30, 8], &vec![false, true, false], 10, 50);
    assert_eq!(r[0], 20);
    assert_eq!(r[2], 8);
    assert_eq!(r.iter().sum::<usize>() + 10, 50);
}

#[test]
fn fit_below_fixed_part_empties_shrinkable() {
    let r = fit_widths(&vec![20, 30], &vec![false, true], 4, 10);
    assert_eq!(r, vec![20, 0]);
}

#[test]
fn bordered_lines_meet_target_width() {
    let columns = vec![
        Column::new("PID".to_string()).h_padding(Some(1)),
        Column::new("Command line".to_string()).can_shrink(true),
        Column::new("Path".to_string()).can_shrink(true),
    ];
    let mut template = Builder::new().build(columns);
    let rows = vec![
        vec![cell("1"), cell("/sbin/init splash quiet and more words"), cell("/sbin/init")],
        vec![cell("4321"), cell("bash"), cell("/usr/lib/very/long/path/to/some/binary")],
    ];
    for target in [30usize, 45, 60] {
        let out = template.format(&rows, Some(target));
        for line in out.lines() {
            assert_eq!(line.chars().count(), target, "line {line:?}");
        }
    }
}

#[test]
fn ascii_border_and_truncation() {
    let columns = vec![Column::new("Name".to_string()).can_shrink(true)];
    let mut template = Builder::new().style(Style::Ascii).h_padding(1).build(columns);
    let rows = vec![vec![cell("abcdefghij")]];
    let out = template.format(&rows, Some(8));
    let lines: Vec<&str> = out.lines().collect();
    assert_eq!(lines[0], "|------|");
    assert_eq!(lines[1], "| Name |");
    assert_eq!(lines[3], "| abc… |");
    assert_eq!(lines.len(), 5);
}

#[test]
fn bordered_cells_match_plain_cells() {
    let make = || {
        vec![Column::new("A".to_string()).h_padding(Some(1)), Column::new("Bb".to_string()).h_padding(Some(1))]
    };
    let rows = vec![vec![cell("xy"), cell("z")], vec![cell("q"), cell("wvu")]];
    let mut bordered = Builder::new().build(make());
    let mut plain = Builder::new().style(Style::Plain).build(make());
    let b = bordered.format(&rows, None);
    let p = plain.format(&rows, None);
    let b_lines: Vec<Vec<char>> = b.lines().map(|l| l.chars().collect()).collect();
    let p_lines: Vec<Vec<char>> = p.lines().map(|l| l.chars().collect()).collect();
    // first column: width 2 in both
    for (bl, pl) in b_lines[3..5].iter().zip(p_lines[1..3].iter()) {
        let bcell: String = bl[2..4].iter().collect();
        let pcell: String = pl[1..3].iter().collect();
        assert_eq!(bcell, pcell);
    }
    assert_eq!(p_lines[0].iter().collect::<String>(), " A  Bb");
    assert_eq!(p_lines[2].iter().collect::<String>(), " q  wvu");
}

#[test]
fn plain_last_column_is_header_wide() {
    let columns = vec![Column::new("ID".to_string()), Column::new("X".to_string())];
    let mut template = Builder::new().style(Style::Plain).build(columns);
    let rows = vec![vec![cell("12345"), cell("long text")]];
    let out = template.format(&rows, Some(3));
    assert_eq!(out, " ID    X\n 12345 long text\n");
}

#[test]
fn truncate_marks_cut() {
    let mut s = "hello".to_string();
    truncate_string(&mut s, 3);
    assert_eq!(s, "he…");
    let mut t = "héllo".to_string();
    truncate_string(&mut t, 5);
    assert_eq!(t, "héllo");
    let mut u = "abc".to_string();
    truncate_string(&mut u, 0);
    assert_eq!(u, "");
}

#[test]
fn columns_for_fields() {
    let c = Field::CmdLine.to_column(false);
    assert_eq!(c.name, "Command line");
    assert!(c.can_shrink);
    assert_eq!(c.h_padding, None);
    let p = Field::ParentPid.to_column(true);
    assert_eq!(p.name, "PPID");
    assert_eq!(p.h_padding, Some(1));
}

#[test]
fn cells_for_fields() {
    let info = record(501, "alice", false);
    let pid = Pid(42);
    assert_eq!(Field::CpuUsage.cell(false, pid, &info, 0).text, "12.34%");
    assert_eq!(Field::CpuUsage.cell(true, pid, &info, 0).text, "12.3");
    assert_eq!(Field::MemUsage.cell(false, pid, &info, 0).text, "0.50%");
    assert_eq!(Field::CpuTime.cell(false, pid, &info, 0).text, "01:01.50");
    assert_eq!(Field::VirtualMemSize.cell(false, pid, &info, 0).text, "1.5 KiB");
    let vsz = Field::VirtualMemSize.cell(true, pid, &info, 0);
    assert_eq!(vsz.text, "1");
    assert_eq!(vsz.width, 1);
    assert_eq!(Field::Tty.cell(true, pid, &info, 0).text, "??");
    assert_eq!(Field::Tty.cell(false, pid, &info, 0).text, "?");
    assert_eq!(Field::Uid.cell(false, pid, &info, 0).text, "501");
    assert_eq!(Field::AnyName.cell(false, pid, &info, 0).text, "app --flag");
    assert_eq!(Field::StartTime.cell(false, pid, &info, 0).text, "<unauthorized>");
}

#[test]
fn missing_values_have_distinct_placeholders() {
    let mut info = record(0, "root", false);
    info.uid = Info::Defunct;
    info.username = Info::Unauthorized;
    let uid = Field::Uid.cell(false, Pid(1), &info, 0);
    assert_eq!(uid.text, "<defunct>");
    assert_eq!(uid.width, 9);
    let user = Field::Username.cell(false, Pid(1), &info, 0);
    assert_eq!(user.text, "<unauthorized>");
    assert_eq!(user.width, 14);
    info.controlling_tty = Info::Defunct;
    assert_eq!(Field::Tty.cell(false, Pid(1), &info, 0).text, "<defunct>");
}

#[test]
fn plain_cuts_all_but_last_column() {
    let make = || vec![Column::new("A".to_string()), Column::new("B".to_string())];
    let rows = vec![vec![Cell { text: "abc".to_string(), width: 1 }, cell("long")]];
    let mut plain = Builder::new().style(Style::Plain).build(make());
    assert_eq!(plain.format(&rows, None), " A B\n … long\n");
    let mut bordered = Builder::new().style(Style::Ascii).h_padding(0).build(make());
    let out = bordered.format(&rows, None);
    assert_eq!(out.lines().nth(3), Some("|…|long|"));
}

#[test]
fn any_name_falls_back() {
    let mut info = record(0, "root", true);
    info.cmd_line = Info::Defunct;
    info.path = Info::Defunct;
    assert_eq!(Field::AnyName.cell(false, Pid(9), &info, 0).text, "[app] <defunct>");
    info.is_defunct = false;
    info.path = Info::Present(Some("/bin/x".to_string()));
    assert_eq!(Field::AnyName.cell(false, Pid(9), &info, 0).text, "</bin/x>");
}

#[test]
fn start_time_uses_local_clock() {
    let mut info = record(0, "root", false);
    info.start_time = Info::Present(1_700_000_000_000_000_000);
    let c = Field::StartTime.cell(false, Pid(1), &info, 1_700_000_060_000_000_000);
    assert_ne!(c.text, "-");
    assert!(c.text.contains(':'));
    assert_eq!(c.width, c.text.chars().count());
}
