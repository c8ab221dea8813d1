use vstd::prelude::*;

use crate::filter::{kept, ProcessFilter};
use crate::ids::{Pid, Uid};
use crate::info::{opt_text_display, text_display, Info};
use crate::process_info::ProcessInfo;
use crate::sort::{atoms, compare_keys, is_permutation, key_cmp, sort_by_key, Atom, KeyAtom};
use crate::table::{Builder, Cell, Column, Style, TableTemplate};
use crate::text::{
    dec, dec_zero_padded, decimal_len, format_mem, int_text, mem_text, push_char, push_decimal,
    push_int, push_zero_padded,
};
use std::cmp::Ordering;

verus! {

/// A column of the process table, and a key to sort it by.
#[derive(Clone, Copy, Debug, PartialEq, Eq, Structural)]
pub enum Field {
    Pid,
    ParentPid,
    Uid,
    Username,
    Path,
    CmdLine,
    Name,
    /// The best name available: command line, else path, else short name.
    AnyName,
    CpuUsage,
    MemUsage,
    VirtualMemSize,
    PhysicalMemSize,
    Tty,
    StartTime,
    CpuTime,
}

pub type PidAndInfo = (Pid, ProcessInfo);

/// Width of the decimal numeral of `v`, counting at least one digit.
pub open spec fn digits_width(v: int) -> int {
    dec(if v < 1 { 1nat } else { v as nat }).len() as int
}

/// What a cell shows for a value that is missing: whether the process is
/// gone or the value was denied.
pub open spec fn missing_text<T>(i: Info<T>) -> Seq<char> {
    match i {
        Info::Defunct => crate::info::defunct_text(),
        Info::Unauthorized => crate::info::unauthorized_text(),
        Info::Present(_) => dash(),
    }
}

pub open spec fn dash() -> Seq<char> {
    seq!['-']
}

/// A fraction in basis points as a percentage: two decimals and a percent
/// sign, or, for `ps`, one decimal rounded half up.
pub open spec fn usage_text(bp: nat, ps_compat: bool) -> Seq<char> {
    if ps_compat {
        let t = (bp + 5) / 10;
        dec(t / 10) + seq!['.'] + dec(t % 10)
    } else {
        dec(bp / 100) + seq!['.'] + dec_zero_padded(bp % 100, 2) + seq!['%']
    }
}

/// A duration in nanoseconds as minutes and seconds to the hundredth,
/// `MM:SS.hh`.
pub open spec fn cpu_time_text(ns: nat) -> Seq<char> {
    let c = ns / 10_000_000;
    let m = c / 6000;
    let r = c % 6000;
    dec_zero_padded(m, 2) + seq![':'] + dec_zero_padded(r / 100, 2) + seq!['.'] + dec_zero_padded(r % 100, 2)
}

/// A memory size: KiB as a plain number for `ps`, else in its unit.
pub open spec fn size_text(v: nat, ps_compat: bool) -> Seq<char> {
    if ps_compat {
        dec(v / 1024)
    } else {
        mem_text(v)
    }
}

pub open spec fn any_name_text(info: ProcessInfo) -> Seq<char> {
    match info.cmd_line {
        Info::Present(Option::Some(c)) => c@,
        _ => match info.path {
            Info::Present(Option::Some(p)) => seq!['<'] + p@ + seq!['>'],
            _ => match info.name {
                Info::Present(n) => seq!['['] + n@ + seq![']'] + if info.is_defunct {
                    seq![' '] + crate::info::defunct_text()
                } else {
                    Seq::empty()
                },
                _ => text_display(info.name),
            },
        },
    }
}

impl Field {
    /// The text of this field's cell; for a known start time it depends on
    /// the local time zone and is not stated here.
    pub open spec fn cell_text(self, ps_compat: bool, pid: Pid, info: ProcessInfo) -> Seq<char> {
        match self {
            Field::Pid => int_text(pid.0 as int),
            Field::ParentPid => match info.parent_pid {
                Info::Present(p) => int_text(p.0 as int),
                _ => missing_text(info.parent_pid),
            },
            Field::Uid => match info.uid {
                Info::Present(u) => dec(u.0 as nat),
                _ => missing_text(info.uid),
            },
            Field::Username => match info.username {
                Info::Present(n) => n@,
                _ => missing_text(info.username),
            },
            Field::Path => opt_text_display(info.path),
            Field::CmdLine => opt_text_display(info.cmd_line),
            Field::Name => text_display(info.name),
            Field::AnyName => any_name_text(info),
            Field::CpuUsage => match info.cpu_usage {
                Info::Present(v) => usage_text(v as nat, ps_compat),
                _ => missing_text(info.cpu_usage),
            },
            Field::MemUsage => match info.mem_usage {
                Info::Present(v) => usage_text(v as nat, ps_compat),
                _ => missing_text(info.mem_usage),
            },
            Field::CpuTime => match info.cpu_time {
                Info::Present(v) => cpu_time_text(v as nat),
                _ => missing_text(info.cpu_time),
            },
            Field::VirtualMemSize => match info.virtual_mem_size {
                Info::Present(v) => size_text(v as nat, ps_compat),
                _ => missing_text(info.virtual_mem_size),
            },
            Field::PhysicalMemSize => match info.physical_mem_size {
                Info::Present(v) => size_text(v as nat, ps_compat),
                _ => missing_text(info.physical_mem_size),
            },
            Field::Tty => match info.controlling_tty {
                Info::Present(Option::None) => if ps_compat {
                    seq!['?', '?']
                } else {
                    seq!['?']
                },
                Info::Present(Option::Some(t)) => t@,
                _ => missing_text(info.controlling_tty),
            },
            Field::StartTime => missing_text(info.start_time),
        }
    }

    /// Whether `cell_text` states the cell's text.
    pub open spec fn text_is_stated(self, info: ProcessInfo) -> bool {
        !(self == Field::StartTime && info.start_time is Present)
    }

    /// The width estimated for a cell: the digit count for numbers, else
    /// the text's length in characters.
    pub open spec fn cell_width(self, ps_compat: bool, pid: Pid, info: ProcessInfo, text: Seq<char>) -> int {
        match self {
            Field::Pid => digits_width(pid.0 as int),
            Field::ParentPid => match info.parent_pid {
                Info::Present(p) => digits_width(p.0 as int),
                _ => text.len() as int,
            },
            Field::Uid => match info.uid {
                Info::Present(u) => digits_width(u.0 as int),
                _ => text.len() as int,
            },
            Field::VirtualMemSize => match info.virtual_mem_size {
                Info::Present(v) => if ps_compat {
                    digits_width(v as int / 1024)
                } else {
                    mem_text(v as nat).len() as int
                },
                _ => text.len() as int,
            },
            Field::PhysicalMemSize => match info.physical_mem_size {
                Info::Present(v) => if ps_compat {
                    digits_width(v as int / 1024)
                } else {
                    mem_text(v as nat).len() as int
                },
                _ => text.len() as int,
            },
            _ => text.len() as int,
        }
    }
}

fn digits_width_of(v: i64) -> (r: usize)
    ensures
        r == digits_width(v as int),
{
    if v < 1 {
        decimal_len(1)
    } else {
        decimal_len(v as u64)
    }
}

fn push_dash(out: &mut String)
    ensures
        final(out)@ == old(out)@ + dash(),
{
    push_char(out, '-');
}

fn push_usage(out: &mut String, bp: u64, ps_compat: bool)
    ensures
        final(out)@ == old(out)@ + usage_text(bp as nat, ps_compat),
{
    if ps_compat {
        let t: u64 = ((bp as u128 + 5) / 10) as u64;
        push_decimal(out, t / 10);
        push_char(out, '.');
        push_decimal(out, t % 10);
    } else {
        push_decimal(out, bp / 100);
        push_char(out, '.');
        push_zero_padded(out, bp % 100, 2);
        push_char(out, '%');
    }
    assert(final(out)@ =~= old(out)@ + usage_text(bp as nat, ps_compat));
}

fn push_cpu_time(out: &mut String, ns: u64)
    ensures
        final(out)@ == old(out)@ + cpu_time_text(ns as nat),
{
    let c = ns / 10_000_000;
    let m = c / 6000;
    let r = c % 6000;
    push_zero_padded(out, m, 2);
    push_char(out, ':');
    push_zero_padded(out, r / 100, 2);
    push_char(out, '.');
    push_zero_padded(out, r % 100, 2);
    assert(final(out)@ =~= old(out)@ + cpu_time_text(ns as nat));
}

fn size_cell(v: u64, ps_compat: bool) -> (r: Cell)
    ensures
        r.text@ == size_text(v as nat, ps_compat),
        r.width == if ps_compat {
            digits_width(v as int / 1024)
        } else {
            mem_text(v as nat).len() as int
        },
{
    if ps_compat {
        let mut text = String::new();
        push_decimal(&mut text, v / 1024);
        assert(text@ =~= size_text(v as nat, ps_compat));
        Cell { text, width: digits_width_of((v / 1024) as i64) }
    } else {
        let text = format_mem(v);
        let width = text.as_str().unicode_len();
        Cell { text, width }
    }
}

/// The `strftime` patterns that start times are shown with.
pub open spec fn is_start_format(f: Seq<char>) -> bool {
    f == "%l:%M%p"@ || f == "%a%I%p"@ || f == "%e%b%y"@ || f == "%-l:%M %p"@ || f == "%a %-l:%M %p"@
        || f == "%e %b %y %-l:%M %p"@
}

/// How a start time is shown, by how long ago it was: the time of day
/// within a day, with the weekday within a week, else the date.
pub fn start_format(elapsed_secs: u64, ps_compat: bool) -> (r: &'static str)
    ensures
        is_start_format(r@),
        ps_compat && elapsed_secs < 86400 ==> r@ == "%l:%M%p"@,
        ps_compat && 86400 <= elapsed_secs < 604800 ==> r@ == "%a%I%p"@,
        ps_compat && 604800 <= elapsed_secs ==> r@ == "%e%b%y"@,
        !ps_compat && elapsed_secs < 86400 ==> r@ == "%-l:%M %p"@,
        !ps_compat && 86400 <= elapsed_secs < 604800 ==> r@ == "%a %-l:%M %p"@,
        !ps_compat && 604800 <= elapsed_secs ==> r@ == "%e %b %y %-l:%M %p"@,
{
    if ps_compat {
        if elapsed_secs < 24 * 3600 {
            "%l:%M%p"
        } else if elapsed_secs < 7 * 24 * 3600 {
            "%a%I%p"
        } else {
            "%e%b%y"
        }
    } else if elapsed_secs < 24 * 3600 {
        "%-l:%M %p"
    } else if elapsed_secs < 7 * 24 * 3600 {
        "%a %-l:%M %p"
    } else {
        "%e %b %y %-l:%M %p"
    }
}

/// Relies on `chrono`: the instant `secs` after the Unix epoch in the local
/// time zone, formatted by `fmt`; `None` where chrono cannot represent it.
/// The text depends on the machine's time zone, so nothing is assumed of it.
#[verifier::external_body]
fn local_time_text(secs: i64, fmt: &str) -> (r: Option<String>)
    requires
        is_start_format(fmt@),
{
    match chrono::DateTime::from_timestamp(secs, 0) {
        Some(t) => Some(t.with_timezone(&chrono::Local).format(fmt).to_string()),
        None => None,
    }
}


fn push_text(out: &mut String, text: &str)
    ensures
        final(out)@ == old(out)@ + text@,
{
    out.append(text);
}

fn text_cell(text: String) -> (r: Cell)
    ensures
        r.text@ == text@,
        r.width == text@.len(),
{
    let width = text.as_str().unicode_len();
    Cell { text, width }
}

fn missing_cell<T>(i: &Info<T>) -> (r: Cell)
    ensures
        r.text@ == missing_text(*i),
        r.width == r.text@.len(),
{
    let mut text = String::new();
    match i {
        Info::Defunct => {
            push_text(&mut text, "<defunct>");
            proof {
                reveal_strlit("<defunct>");
            }
        },
        Info::Unauthorized => {
            push_text(&mut text, "<unauthorized>");
            proof {
                reveal_strlit("<unauthorized>");
            }
        },
        Info::Present(_) => push_dash(&mut text),
    }
    assert(text@ =~= missing_text(*i));
    text_cell(text)
}

fn dash_cell() -> (r: Cell)
    ensures
        r.text@ == dash(),
        r.width == 1,
{
    let mut text = String::new();
    push_dash(&mut text);
    Cell { text, width: 1 }
}

fn int_cell(v: i64) -> (r: Cell)
    ensures
        r.text@ == int_text(v as int),
        r.width == digits_width(v as int),
{
    let mut text = String::new();
    push_int(&mut text, v);
    Cell { text, width: digits_width_of(v) }
}

fn any_name(info: &ProcessInfo) -> (r: String)
    ensures
        r@ == any_name_text(*info),
{
    let mut out = String::new();
    match (&info.cmd_line, &info.path, &info.name) {
        (Info::Present(Some(c)), _, _) => push_text(&mut out, c.as_str()),
        (_, Info::Present(Some(p)), _) => {
            push_char(&mut out, '<');
            push_text(&mut out, p.as_str());
            push_char(&mut out, '>');
        },
        (_, _, Info::Present(n)) => {
            push_char(&mut out, '[');
            push_text(&mut out, n.as_str());
            push_char(&mut out, ']');
            if info.is_defunct {
                push_char(&mut out, ' ');
                push_text(&mut out, "<defunct>");
                proof {
                    reveal_strlit("<defunct>");
                }
            }
        },
        _ => push_text(&mut out, info.name.to_str()),
    }
    assert(out@ =~= any_name_text(*info));
    out
}

impl Field {
    /// The cell that this field shows for one process. `now` is the current
    /// time in nanoseconds since the Unix epoch, which tells how old a start
    /// time is.
    pub fn cell(self, ps_compat: bool, pid: Pid, info: &ProcessInfo, now: u64) -> (r: Cell)
        ensures
            self.text_is_stated(*info) ==> r.text@ == self.cell_text(ps_compat, pid, *info),
            self.text_is_stated(*info) ==> r.width == self.cell_width(ps_compat, pid, *info, r.text@),
            !self.text_is_stated(*info) ==> r.width == r.text@.len(),
    {
        match self {
            Field::Pid => int_cell(pid.0 as i64),
            Field::ParentPid => match &info.parent_pid {
                Info::Present(p) => int_cell(p.0 as i64),
                _ => missing_cell(&info.parent_pid),
            },
            Field::Uid => match &info.uid {
                Info::Present(u) => {
                    let mut text = String::new();
                    push_decimal(&mut text, u.0 as u64);
                    Cell { text, width: digits_width_of(u.0 as i64) }
                },
                _ => missing_cell(&info.uid),
            },
            Field::Username => match &info.username {
                Info::Present(n) => {
                    let mut text = String::new();
                    push_text(&mut text, n.as_str());
                    text_cell(text)
                },
                _ => missing_cell(&info.username),
            },
            Field::Path => {
                let mut text = String::new();
                push_text(&mut text, info.path.to_str());
                text_cell(text)
            },
            Field::CmdLine => {
                let mut text = String::new();
                push_text(&mut text, info.cmd_line.to_str());
                text_cell(text)
            },
            Field::Name => {
                let mut text = String::new();
                push_text(&mut text, info.name.to_str());
                text_cell(text)
            },
            Field::AnyName => text_cell(any_name(info)),
            Field::CpuUsage => match &info.cpu_usage {
                Info::Present(v) => {
                    let mut text = String::new();
                    push_usage(&mut text, *v, ps_compat);
                    text_cell(text)
                },
                _ => missing_cell(&info.cpu_usage),
            },
            Field::MemUsage => match &info.mem_usage {
                Info::Present(v) => {
                    let mut text = String::new();
                    push_usage(&mut text, *v, ps_compat);
                    text_cell(text)
                },
                _ => missing_cell(&info.mem_usage),
            },
            Field::CpuTime => match &info.cpu_time {
                Info::Present(v) => {
                    let mut text = String::new();
                    push_cpu_time(&mut text, *v);
                    text_cell(text)
                },
                _ => missing_cell(&info.cpu_time),
            },
            Field::VirtualMemSize => match &info.virtual_mem_size {
                Info::Present(v) => size_cell(*v, ps_compat),
                _ => missing_cell(&info.virtual_mem_size),
            },
            Field::PhysicalMemSize => match &info.physical_mem_size {
                Info::Present(v) => size_cell(*v, ps_compat),
                _ => missing_cell(&info.physical_mem_size),
            },
            Field::Tty => match &info.controlling_tty {
                Info::Present(None) => {
                    let mut text = String::new();
                    push_char(&mut text, '?');
                    if ps_compat {
                        push_char(&mut text, '?');
                    }
                    assert(text@ =~= self.cell_text(ps_compat, pid, *info));
                    text_cell(text)
                },
                Info::Present(Some(t)) => {
                    let mut text = String::new();
                    push_text(&mut text, t.as_str());
                    text_cell(text)
                },
                _ => missing_cell(&info.controlling_tty),
            },
            Field::StartTime => match &info.start_time {
                Info::Present(start) => {
                    let elapsed_ns = if now > *start {
                        now - *start
                    } else {
                        0
                    };
                    let format = start_format(elapsed_ns / 1_000_000_000, ps_compat);
                    match local_time_text((*start / 1_000_000_000) as i64, format) {
                        Some(text) => text_cell(text),
                        None => dash_cell(),
                    }
                },
                _ => missing_cell(&info.start_time),
            },
        }
    }

    /// The header and layout hints of this field's column.
    pub fn to_column(self, ps_compat: bool) -> (r: Column)
        ensures
            r.name@ == self.header(ps_compat),
            r.max_width is None,
            r.can_shrink == self.is_shrinkable(),
            r.h_padding == if self.is_shrinkable() {
                Option::None
            } else {
                Option::Some(1usize)
            },
    {
        let name = match self {
            Field::Pid => "PID",
            Field::ParentPid => if ps_compat {
                "PPID"
            } else {
                "Parent"
            },
            Field::Uid => "UID",
            Field::Username => if ps_compat {
                "USER"
            } else {
                "User"
            },
            Field::Path => if ps_compat {
                "PATH"
            } else {
                "Path"
            },
            Field::CmdLine => if ps_compat {
                "COMMAND"
            } else {
                "Command line"
            },
            Field::Name => if ps_compat {
                "NAME"
            } else {
                "Name"
            },
            Field::AnyName => if ps_compat {
                "CMD/[NAME]/<PATH>"
            } else {
                "Cmd/[Name]/<Path>"
            },
            Field::CpuUsage => if ps_compat {
                "%CPU"
            } else {
                "CPU"
            },
            Field::CpuTime => if ps_compat {
                "TIME"
            } else {
                "CPU time"
            },
            Field::MemUsage => if ps_compat {
                "%MEM"
            } else {
                "Mem"
            },
            Field::VirtualMemSize => if ps_compat {
                "VSZ"
            } else {
                "Virt mem"
            },
            Field::PhysicalMemSize => if ps_compat {
                "RSS"
            } else {
                "Phys mem"
            },
            Field::Tty => if ps_compat {
                "TT"
            } else {
                "TTY"
            },
            Field::StartTime => if ps_compat {
                "STARTED"
            } else {
                "Start"
            },
        };
        let column = Column::new(String::from_str(name));
        if self.is_shrinkable_exec() {
            column.can_shrink(true)
        } else {
            column.h_padding(Some(1))
        }
    }

    /// Whether the column may lose width: the free-text columns.
    pub open spec fn is_shrinkable(self) -> bool {
        self == Field::Path || self == Field::CmdLine || self == Field::Name || self == Field::AnyName
    }

    fn is_shrinkable_exec(self) -> (r: bool)
        ensures
            r == self.is_shrinkable(),
    {
        match self {
            Field::Path | Field::CmdLine | Field::Name | Field::AnyName => true,
            _ => false,
        }
    }

    pub open spec fn header(self, ps_compat: bool) -> Seq<char> {
        match self {
            Field::Pid => "PID"@,
            Field::ParentPid => if ps_compat { "PPID"@ } else { "Parent"@ },
            Field::Uid => "UID"@,
            Field::Username => if ps_compat { "USER"@ } else { "User"@ },
            Field::Path => if ps_compat { "PATH"@ } else { "Path"@ },
            Field::CmdLine => if ps_compat { "COMMAND"@ } else { "Command line"@ },
            Field::Name => if ps_compat { "NAME"@ } else { "Name"@ },
            Field::AnyName => if ps_compat { "CMD/[NAME]/<PATH>"@ } else { "Cmd/[Name]/<Path>"@ },
            Field::CpuUsage => if ps_compat { "%CPU"@ } else { "CPU"@ },
            Field::CpuTime => if ps_compat { "TIME"@ } else { "CPU time"@ },
            Field::MemUsage => if ps_compat { "%MEM"@ } else { "Mem"@ },
            Field::VirtualMemSize => if ps_compat { "VSZ"@ } else { "Virt mem"@ },
            Field::PhysicalMemSize => if ps_compat { "RSS"@ } else { "Phys mem"@ },
            Field::Tty => if ps_compat { "TT"@ } else { "TTY"@ },
            Field::StartTime => if ps_compat { "STARTED"@ } else { "Start"@ },
        }
    }
}


pub open spec fn rank_atom<T>(i: Info<T>) -> Atom {
    Atom::Num(crate::info::info_rank(i))
}

pub open spec fn num_info_key(i: Info<u64>) -> Seq<Atom> {
    match i {
        Info::Present(v) => seq![rank_atom(i), Atom::Num(v as int)],
        _ => seq![rank_atom(i)],
    }
}

pub open spec fn pid_info_key(i: Info<Pid>) -> Seq<Atom> {
    match i {
        Info::Present(p) => seq![rank_atom(i), Atom::Num(p.0 as int)],
        _ => seq![rank_atom(i)],
    }
}

pub open spec fn uid_info_key(i: Info<Uid>) -> Seq<Atom> {
    match i {
        Info::Present(u) => seq![rank_atom(i), Atom::Num(u.0 as int)],
        _ => seq![rank_atom(i)],
    }
}

pub open spec fn text_info_key(i: Info<String>) -> Seq<Atom> {
    match i {
        Info::Present(s) => seq![rank_atom(i), Atom::Text(s@)],
        _ => seq![rank_atom(i)],
    }
}

/// Missing values first, then an unknown value, then texts in order.
pub open spec fn opt_text_info_key(i: Info<Option<String>>) -> Seq<Atom> {
    match i {
        Info::Present(Option::Some(s)) => seq![rank_atom(i), Atom::Num(1), Atom::Text(s@)],
        Info::Present(Option::None) => seq![rank_atom(i), Atom::Num(0)],
        _ => seq![rank_atom(i)],
    }
}

impl Field {
    /// What records are ordered by under this field. Missing values order
    /// before present ones, defunct before denied. The best available name
    /// orders by command line, then short name, then path, then defunct
    /// processes first.
    pub open spec fn key(self, pid: Pid, info: ProcessInfo) -> Seq<Atom> {
        match self {
            Field::Pid => seq![Atom::Num(pid.0 as int)],
            Field::ParentPid => pid_info_key(info.parent_pid),
            Field::Uid => uid_info_key(info.uid),
            Field::Username => text_info_key(info.username),
            Field::Path => opt_text_info_key(info.path),
            Field::CmdLine => opt_text_info_key(info.cmd_line),
            Field::Name => text_info_key(info.name),
            Field::AnyName => opt_text_info_key(info.cmd_line) + text_info_key(info.name) + opt_text_info_key(
                info.path,
            ) + seq![Atom::Num(if info.is_defunct { 0 } else { 1 })],
            Field::CpuUsage => num_info_key(info.cpu_usage),
            Field::MemUsage => num_info_key(info.mem_usage),
            Field::CpuTime => num_info_key(info.cpu_time),
            Field::VirtualMemSize => num_info_key(info.virtual_mem_size),
            Field::PhysicalMemSize => num_info_key(info.physical_mem_size),
            Field::Tty => opt_text_info_key(info.controlling_tty),
            Field::StartTime => num_info_key(info.start_time),
        }
    }
}

/// The key of a record under a list of fields: the fields' keys in turn.
pub open spec fn record_key(fields: Seq<Field>, pid: Pid, info: ProcessInfo) -> Seq<Atom>
    decreases fields.len(),
{
    if fields.len() == 0 {
        Seq::empty()
    } else {
        record_key(fields.drop_last(), pid, info) + fields.last().key(pid, info)
    }
}

pub open spec fn ordering_of(c: int) -> Ordering {
    if c < 0 {
        Ordering::Less
    } else if c > 0 {
        Ordering::Greater
    } else {
        Ordering::Equal
    }
}

fn chars_of(s: &str) -> (r: Vec<char>)
    ensures
        r@ == s@,
{
    let n = s.unicode_len();
    let mut r: Vec<char> = Vec::new();
    let mut i: usize = 0;
    while i < n
        invariant
            i <= n,
            n == s@.len(),
            r@ == s@.take(i as int),
        decreases n - i,
    {
        r.push(s.get_char(i));
        i = i + 1;
        assert(r@ =~= s@.take(i as int));
    }
    assert(r@ =~= s@);
    r
}

fn push_atom(key: &mut Vec<KeyAtom>, a: KeyAtom)
    ensures
        atoms(final(key)@) == atoms(old(key)@).push(a.view()),
{
    key.push(a);
    assert(atoms(final(key)@) =~= atoms(old(key)@).push(a.view()));
}

fn push_rank<T>(key: &mut Vec<KeyAtom>, i: &Info<T>)
    ensures
        atoms(final(key)@) == atoms(old(key)@).push(rank_atom(*i)),
{
    let rank: i128 = match i {
        Info::Defunct => 0,
        Info::Unauthorized => 1,
        Info::Present(_) => 2,
    };
    push_atom(key, KeyAtom::Num(rank));
}

fn push_num_info(key: &mut Vec<KeyAtom>, i: &Info<u64>)
    ensures
        atoms(final(key)@) == atoms(old(key)@) + num_info_key(*i),
{
    push_rank(key, i);
    if let Info::Present(v) = i {
        push_atom(key, KeyAtom::Num(*v as i128));
    }
    assert(atoms(final(key)@) =~= atoms(old(key)@) + num_info_key(*i));
}

fn push_text_info(key: &mut Vec<KeyAtom>, i: &Info<String>)
    ensures
        atoms(final(key)@) == atoms(old(key)@) + text_info_key(*i),
{
    push_rank(key, i);
    if let Info::Present(s) = i {
        push_atom(key, KeyAtom::Text(chars_of(s.as_str())));
    }
    assert(atoms(final(key)@) =~= atoms(old(key)@) + text_info_key(*i));
}

fn push_opt_text_info(key: &mut Vec<KeyAtom>, i: &Info<Option<String>>)
    ensures
        atoms(final(key)@) == atoms(old(key)@) + opt_text_info_key(*i),
{
    push_rank(key, i);
    match i {
        Info::Present(Some(s)) => {
            push_atom(key, KeyAtom::Num(1));
            push_atom(key, KeyAtom::Text(chars_of(s.as_str())));
        },
        Info::Present(None) => {
            push_atom(key, KeyAtom::Num(0));
        },
        _ => {},
    }
    assert(atoms(final(key)@) =~= atoms(old(key)@) + opt_text_info_key(*i));
}

impl Field {
    /// Appends this field's key for a record.
    pub fn push_key(self, key: &mut Vec<KeyAtom>, pid: Pid, info: &ProcessInfo)
        ensures
            atoms(final(key)@) == atoms(old(key)@) + self.key(pid, *info),
    {
        match self {
            Field::Pid => {
                push_atom(key, KeyAtom::Num(pid.0 as i128));
                assert(atoms(final(key)@) =~= atoms(old(key)@) + self.key(pid, *info));
            },
            Field::ParentPid => {
                push_rank(key, &info.parent_pid);
                if let Info::Present(p) = &info.parent_pid {
                    push_atom(key, KeyAtom::Num(p.0 as i128));
                }
                assert(atoms(final(key)@) =~= atoms(old(key)@) + self.key(pid, *info));
            },
            Field::Uid => {
                push_rank(key, &info.uid);
                if let Info::Present(u) = &info.uid {
                    push_atom(key, KeyAtom::Num(u.0 as i128));
                }
                assert(atoms(final(key)@) =~= atoms(old(key)@) + self.key(pid, *info));
            },
            Field::Username => push_text_info(key, &info.username),
            Field::Path => push_opt_text_info(key, &info.path),
            Field::CmdLine => push_opt_text_info(key, &info.cmd_line),
            Field::Name => push_text_info(key, &info.name),
            Field::AnyName => {
                let ghost start = atoms(key@);
                push_opt_text_info(key, &info.cmd_line);
                push_text_info(key, &info.name);
                push_opt_text_info(key, &info.path);
                push_atom(key, KeyAtom::Num(if info.is_defunct { 0 } else { 1 }));
                assert(atoms(final(key)@) =~= start + self.key(pid, *info));
            },
            Field::CpuUsage => push_num_info(key, &info.cpu_usage),
            Field::MemUsage => push_num_info(key, &info.mem_usage),
            Field::CpuTime => push_num_info(key, &info.cpu_time),
            Field::VirtualMemSize => push_num_info(key, &info.virtual_mem_size),
            Field::PhysicalMemSize => push_num_info(key, &info.physical_mem_size),
            Field::Tty => push_opt_text_info(key, &info.controlling_tty),
            Field::StartTime => push_num_info(key, &info.start_time),
        }
    }

    /// Orders two records by this field alone.
    pub fn compare(self, a: &PidAndInfo, b: &PidAndInfo) -> (r: Ordering)
        ensures
            r == ordering_of(key_cmp(self.key(a.0, a.1), self.key(b.0, b.1))),
    {
        let mut ka: Vec<KeyAtom> = Vec::new();
        self.push_key(&mut ka, a.0, &a.1);
        let mut kb: Vec<KeyAtom> = Vec::new();
        self.push_key(&mut kb, b.0, &b.1);
        assert(atoms(ka@) =~= self.key(a.0, a.1));
        assert(atoms(kb@) =~= self.key(b.0, b.1));
        let c = compare_keys(&ka, &kb);
        if c < 0 {
            Ordering::Less
        } else if c > 0 {
            Ordering::Greater
        } else {
            Ordering::Equal
        }
    }
}

/// A record's key under a list of fields.
pub fn record_sort_key(fields: &Vec<Field>, pid: Pid, info: &ProcessInfo) -> (r: Vec<KeyAtom>)
    ensures
        atoms(r@) == record_key(fields@, pid, *info),
{
    let mut key: Vec<KeyAtom> = Vec::new();
    let mut i: usize = 0;
    assert(atoms(key@) =~= record_key(fields@.take(0), pid, *info));
    while i < fields.len()
        invariant
            i <= fields.len(),
            atoms(key@) == record_key(fields@.take(i as int), pid, *info),
        decreases fields.len() - i,
    {
        fields[i].push_key(&mut key, pid, info);
        assert(fields@.take(i + 1).drop_last() =~= fields@.take(i as int));
        i = i + 1;
    }
    assert(fields@.take(i as int) =~= fields@);
    key
}

/// `r` is `records` reordered by `perm`, by their keys under `fields`, with
/// records of equal keys in their input order.
pub open spec fn sorted_by_fields(r: Seq<PidAndInfo>, records: Seq<PidAndInfo>, fields: Seq<Field>, perm: Seq<int>) -> bool {
    &&& r.len() == records.len()
    &&& is_permutation(perm, records.len() as int)
    &&& forall|k: int| 0 <= k < r.len() ==> #[trigger] r[k] == records[perm[k]]
    &&& forall|k: int, l: int|
        #![trigger r[k], r[l]]
        0 <= k < l < r.len() ==> {
            let c = key_cmp(record_key(fields, r[k].0, r[k].1), record_key(fields, r[l].0, r[l].1));
            c < 0 || (c == 0 && perm[k] < perm[l])
        }
}

/// Sorts records by the fields in turn, each deciding only where the ones
/// before it tie, and keeps the input order where all tie.
pub fn sort_processes(records: Vec<PidAndInfo>, fields: &Vec<Field>) -> (r: Vec<PidAndInfo>)
    ensures
        exists|perm: Seq<int>| sorted_by_fields(r@, records@, fields@, perm),
{
    let ghost orig = records@;
    let mut rest = records;
    let mut keyed: Vec<(Vec<KeyAtom>, PidAndInfo)> = Vec::new();
    while rest.len() > 0
        invariant
            keyed.len() + rest.len() == orig.len(),
            rest@ == orig.subrange(keyed.len() as int, orig.len() as int),
            forall|k: int|
                0 <= k < keyed.len() ==> (#[trigger] keyed@[k]).1 == orig[k] && atoms(keyed@[k].0@)
                    == record_key(fields@, orig[k].0, orig[k].1),
        decreases rest.len(),
    {
        let item = rest.remove(0);
        let key = record_sort_key(fields, item.0, &item.1);
        keyed.push((key, item));
        assert(rest@ =~= orig.subrange(keyed.len() as int, orig.len() as int));
    }
    let ghost keyed_items = keyed@;
    let mut sorted = sort_by_key(keyed);
    let ghost perm = choose|perm: Seq<int>| crate::sort::stably_sorted(sorted@, keyed_items, perm);
    let ghost sorted_items = sorted@;
    let mut out: Vec<PidAndInfo> = Vec::new();
    while sorted.len() > 0
        invariant
            out.len() + sorted.len() == orig.len(),
            sorted_items.len() == orig.len(),
            sorted@ == sorted_items.subrange(out.len() as int, orig.len() as int),
            forall|k: int| 0 <= k < out.len() ==> #[trigger] out@[k] == sorted_items[k].1,
        decreases sorted.len(),
    {
        let (_, item) = sorted.remove(0);
        out.push(item);
        assert(sorted@ =~= sorted_items.subrange(out.len() as int, orig.len() as int));
    }
    proof {
        assert forall|k: int| 0 <= k < out.len() implies #[trigger] out@[k] == orig[perm[k]] by {
            assert(sorted_items[k] == keyed_items[perm[k]]);
        }
        assert forall|k: int, l: int| #![trigger out@[k], out@[l]] 0 <= k < l < out.len() implies {
            let c = key_cmp(record_key(fields@, out@[k].0, out@[k].1), record_key(fields@, out@[l].0, out@[l].1));
            c < 0 || (c == 0 && perm[k] < perm[l])
        } by {
            assert(sorted_items[k] == keyed_items[perm[k]]);
            assert(sorted_items[l] == keyed_items[perm[l]]);
            assert(atoms(sorted_items[k].0@) == record_key(fields@, out@[k].0, out@[k].1));
            assert(atoms(sorted_items[l].0@) == record_key(fields@, out@[l].0, out@[l].1));
        }
        assert(sorted_by_fields(out@, orig, fields@, perm));
    }
    out
}


/// How the process table is laid out.
pub struct TableArgs {
    /// The columns to show, in order.
    pub cols: Vec<Field>,
    /// The fields to sort by, in decreasing priority.
    pub sort: Vec<Field>,
    /// Plain output, without borders.
    pub plain: bool,
    /// Headers and values as `ps` shows them.
    pub ps_compat: bool,
}

impl TableArgs {
    /// The template for the chosen columns: plain, or bordered with box
    /// drawing or ASCII, and a padding of two where a column sets none.
    pub fn table_template(&self, use_box_drawing: bool) -> (r: TableTemplate)
        ensures
            r.style == if self.plain {
                Style::Plain
            } else if use_box_drawing {
                Style::BoxDrawing
            } else {
                Style::Ascii
            },
            r.columns.len() == self.cols.len(),
            forall|j: int|
                0 <= j < self.cols.len() ==> {
                    let f = self.cols@[j];
                    &&& (#[trigger] r.columns@[j]).inner.name@ == f.header(self.ps_compat)
                    &&& r.columns@[j].inner.can_shrink == f.is_shrinkable()
                    &&& r.columns@[j].inner.max_width is None
                    &&& r.columns@[j].h_padding == if f.is_shrinkable() {
                        2usize
                    } else {
                        1usize
                    }
                },
    {
        let mut columns: Vec<Column> = Vec::new();
        let mut j: usize = 0;
        while j < self.cols.len()
            invariant
                j <= self.cols.len(),
                columns.len() == j,
                forall|k: int|
                    0 <= k < j ==> {
                        let f = self.cols@[k];
                        &&& (#[trigger] columns@[k]).name@ == f.header(self.ps_compat)
                        &&& columns@[k].can_shrink == f.is_shrinkable()
                        &&& columns@[k].max_width is None
                        &&& columns@[k].h_padding == if f.is_shrinkable() {
                            Option::None
                        } else {
                            Option::Some(1usize)
                        }
                    },
            decreases self.cols.len() - j,
        {
            columns.push(self.cols[j].to_column(self.ps_compat));
            j = j + 1;
        }
        let style = if self.plain {
            Style::Plain
        } else if use_box_drawing {
            Style::BoxDrawing
        } else {
            Style::Ascii
        };
        Builder::new().style(style).h_padding(2).build(columns)
    }

    /// The cells of the chosen columns, one row per record.
    pub fn rows(&self, processes: &Vec<PidAndInfo>, now: u64) -> (r: Vec<Vec<Cell>>)
        ensures
            r.len() == processes.len(),
            forall|i: int|
                0 <= i < r.len() ==> {
                    &&& (#[trigger] r@[i]).len() == self.cols.len()
                    &&& forall|j: int|
                        #![trigger r@[i]@[j]]
                        0 <= j < self.cols.len() ==> {
                            let f = self.cols@[j];
                            let (pid, info) = processes@[i];
                            let c = r@[i]@[j];
                            &&& f.text_is_stated(info) ==> c.text@ == f.cell_text(self.ps_compat, pid, info)
                            &&& f.text_is_stated(info) ==> c.width == f.cell_width(self.ps_compat, pid, info, c.text@)
                        }
                },
    {
        let mut r: Vec<Vec<Cell>> = Vec::new();
        let mut i: usize = 0;
        while i < processes.len()
            invariant
                i <= processes.len(),
                r.len() == i,
                forall|k: int|
                    0 <= k < i ==> {
                        &&& (#[trigger] r@[k]).len() == self.cols.len()
                        &&& forall|j: int|
                            #![trigger r@[k]@[j]]
                            0 <= j < self.cols.len() ==> {
                                let f = self.cols@[j];
                                let (pid, info) = processes@[k];
                                let c = r@[k]@[j];
                                &&& f.text_is_stated(info) ==> c.text@ == f.cell_text(self.ps_compat, pid, info)
                                &&& f.text_is_stated(info) ==> c.width == f.cell_width(self.ps_compat, pid, info, c.text@)
                            }
                    },
            decreases processes.len() - i,
        {
            let (pid, info) = &processes[i];
            let mut row: Vec<Cell> = Vec::new();
            let mut j: usize = 0;
            while j < self.cols.len()
                invariant
                    j <= self.cols.len(),
                    row.len() == j,
                    forall|l: int|
                        0 <= l < j ==> {
                            let f = self.cols@[l];
                            let c = #[trigger] row@[l];
                            &&& f.text_is_stated(*info) ==> c.text@ == f.cell_text(self.ps_compat, *pid, *info)
                            &&& f.text_is_stated(*info) ==> c.width == f.cell_width(self.ps_compat, *pid, *info, c.text@)
                        },
                decreases self.cols.len() - j,
            {
                row.push(self.cols[j].cell(self.ps_compat, *pid, info, now));
                j = j + 1;
            }
            r.push(row);
            i = i + 1;
        }
        r
    }

    /// The records that pass the filter, sorted by the chosen fields.
    pub fn sorted_processes_info(&self, processes: Vec<PidAndInfo>, filter: &ProcessFilter) -> (r: Vec<PidAndInfo>)
        ensures
            exists|hits: Seq<(bool, bool)>, perm: Seq<int>|
                hits.len() == processes.len() && sorted_by_fields(
                    r@,
                    kept(processes@, *filter, hits),
                    self.sort@,
                    perm,
                ),
    {
        let ghost input = processes@;
        let filtered = ProcessInfo::apply_filter(processes, filter);
        let ghost hits = choose|hits: Seq<(bool, bool)>| hits.len() == input.len() && filtered@ == kept(input, *filter, hits);
        let ghost kept_items = filtered@;
        let r = sort_processes(filtered, &self.sort);
        let ghost perm = choose|perm: Seq<int>| sorted_by_fields(r@, kept_items, self.sort@, perm);
        assert(sorted_by_fields(r@, kept(input, *filter, hits), self.sort@, perm));
        r
    }
}

} // verus!
