use vstd::prelude::*;

use crate::bytes::{numeral_value, parse_i32, parse_u64, split_bytes, split_on, views};
use crate::ids::{Pid, Uid};
use crate::info::Info;
use crate::process_info::ProcessInfo;
use crate::text::{dec, push_char, push_decimal};

verus! {

/// What a line of `/proc/<pid>/stat` says of a process.
pub struct Status {
    pub name: Vec<u8>,
    pub state: u8,
    pub parent_pid: i32,
    pub tty_dev_number: i32,
    pub cpu_user_time: u64,
    pub cpu_system_time: u64,
    pub start_time: u64,
    pub vm_size: u64,
    pub rss: u64,
}

pub open spec fn first_at(b: Seq<u8>, x: u8, i: int) -> bool {
    0 <= i < b.len() && b[i] == x && forall|k: int| 0 <= k < i ==> b[k] != x
}

pub open spec fn last_at(b: Seq<u8>, x: u8, i: int) -> bool {
    0 <= i < b.len() && b[i] == x && forall|k: int| i < k < b.len() ==> b[k] != x
}

/// The fields after the name: everything from two bytes past the last `)`,
/// split at spaces.
pub open spec fn stat_fields(b: Seq<u8>, close: int) -> Seq<Seq<u8>> {
    split_on(b.subrange(close + 2, b.len() as int), 0x20)
}

/// Whether the fields after the name hold all that is read, in range: the
/// state, the parent, the terminal, the CPU times, the start time, the
/// virtual size and the resident size.
pub open spec fn fields_ok(f: Seq<Seq<u8>>) -> bool {
    &&& f.len() >= 22
    &&& f[0].len() >= 1
    &&& numeral_value(f[1], true) matches Option::Some(v) && i32::MIN <= v <= i32::MAX
    &&& numeral_value(f[4], true) matches Option::Some(v) && i32::MIN <= v <= i32::MAX
    &&& numeral_value(f[11], false) matches Option::Some(v) && v <= u64::MAX
    &&& numeral_value(f[12], false) matches Option::Some(v) && v <= u64::MAX
    &&& numeral_value(f[19], false) matches Option::Some(v) && v <= u64::MAX
    &&& numeral_value(f[20], false) matches Option::Some(v) && v <= u64::MAX
    &&& numeral_value(f[21], false) matches Option::Some(v) && v <= u64::MAX
}

/// The status read from fields `f` and the name between the brackets.
pub open spec fn status_matches(s: Status, name: Seq<u8>, f: Seq<Seq<u8>>) -> bool {
    &&& s.name@ == name
    &&& s.state == f[0][0]
    &&& numeral_value(f[1], true) == Option::Some(s.parent_pid as int)
    &&& numeral_value(f[4], true) == Option::Some(s.tty_dev_number as int)
    &&& numeral_value(f[11], false) == Option::Some(s.cpu_user_time as int)
    &&& numeral_value(f[12], false) == Option::Some(s.cpu_system_time as int)
    &&& numeral_value(f[19], false) == Option::Some(s.start_time as int)
    &&& numeral_value(f[20], false) == Option::Some(s.vm_size as int)
    &&& numeral_value(f[21], false) == Option::Some(s.rss as int)
}

/// Whether every byte from `from` on is ASCII text.
pub open spec fn ascii_from(b: Seq<u8>, from: int) -> bool {
    forall|i: int| from <= i < b.len() ==> #[trigger] b[i] < 0x80
}

/// Whether `b` is a stat line that can be read: a name between the first
/// `(` and the last `)`, then a space and the fields, all ASCII.
pub open spec fn stat_ok(b: Seq<u8>) -> bool {
    exists|open: int, close: int|
        first_at(b, 0x28, open) && last_at(b, 0x29, close) && open + 1 <= close && close + 2 <= b.len()
            && ascii_from(b, close + 1) && fields_ok(stat_fields(b, close))
}

fn find_first(b: &Vec<u8>, x: u8) -> (r: Option<usize>)
    ensures
        r matches Option::Some(i) ==> first_at(b@, x, i as int),
        r is None ==> forall|k: int| 0 <= k < b.len() ==> b@[k] != x,
{
    let mut i: usize = 0;
    while i < b.len()
        invariant
            i <= b.len(),
            forall|k: int| 0 <= k < i ==> b@[k] != x,
        decreases b.len() - i,
    {
        if b[i] == x {
            return Some(i);
        }
        i = i + 1;
    }
    None
}

fn find_last(b: &Vec<u8>, x: u8) -> (r: Option<usize>)
    ensures
        r matches Option::Some(i) ==> last_at(b@, x, i as int),
        r is None ==> forall|k: int| 0 <= k < b.len() ==> b@[k] != x,
{
    let mut i: usize = b.len();
    while i > 0
        invariant
            i <= b.len(),
            forall|k: int| i <= k < b.len() ==> b@[k] != x,
        decreases i,
    {
        if b[i - 1] == x {
            return Some(i - 1);
        }
        i = i - 1;
    }
    None
}

proof fn lemma_first_unique(b: Seq<u8>, x: u8, i: int, j: int)
    requires
        first_at(b, x, i),
        first_at(b, x, j),
    ensures
        i == j,
{
    if i < j {
        assert(b[i] != x);
    }
    if j < i {
        assert(b[j] != x);
    }
}

proof fn lemma_last_unique(b: Seq<u8>, x: u8, i: int, j: int)
    requires
        last_at(b, x, i),
        last_at(b, x, j),
    ensures
        i == j,
{
    if i < j {
        assert(b[j] != x);
    }
    if j < i {
        assert(b[i] != x);
    }
}

/// Reads a line of `/proc/<pid>/stat`: `None` where it is malformed.
pub fn parse_stat(b: &Vec<u8>) -> (r: Option<Status>)
    ensures
        r is Some <==> stat_ok(b@),
        r matches Option::Some(s) ==> exists|open: int, close: int|
            first_at(b@, 0x28, open) && last_at(b@, 0x29, close) && status_matches(
                s,
                b@.subrange(open + 1, close),
                stat_fields(b@, close),
            ),
{
    let open = match find_first(b, 0x28) {
        Some(i) => i,
        None => {
            return None;
        },
    };
    let close = match find_last(b, 0x29) {
        Some(i) => i,
        None => {
            return None;
        },
    };
    proof {
        assert forall|o: int, c: int| first_at(b@, 0x28, o) && last_at(b@, 0x29, c) implies o == open && c
            == close by {
            lemma_first_unique(b@, 0x28, o, open as int);
            lemma_last_unique(b@, 0x29, c, close as int);
        }
    }
    if open >= close || b.len() - close < 2 {
        return None;
    }
    let mut k: usize = close + 1;
    while k < b.len()
        invariant
            close + 1 <= k <= b.len(),
            last_at(b@, 0x29, close as int),
            forall|i: int| close + 1 <= i < k ==> #[trigger] b@[i] < 0x80,
        decreases b.len() - k,
    {
        if b[k] >= 0x80 {
            assert(!ascii_from(b@, close + 1));
            assert(!stat_ok(b@)) by {
                if stat_ok(b@) {
                    let (o, c) = choose|o: int, c: int|
                        first_at(b@, 0x28, o) && last_at(b@, 0x29, c) && o + 1 <= c && c + 2 <= b.len()
                            && ascii_from(b@, c + 1) && fields_ok(stat_fields(b@, c));
                    lemma_last_unique(b@, 0x29, c, close as int);
                }
            }
            return None;
        }
        k = k + 1;
    }
    assert(ascii_from(b@, close + 1));
    let fields = split_bytes(b, close + 2, 0x20);
    let ghost f = stat_fields(b@, close as int);
    assert(views(fields@) == f);
    if fields.len() < 22 || fields[0].len() < 1 {
        assert(!fields_ok(f)) by {
            if fields.len() >= 22 {
                assert(f[0] == fields@[0]@);
            }
        }
        return None;
    }
    assert(f[0] == fields@[0]@ && f[1] == fields@[1]@ && f[4] == fields@[4]@ && f[11] == fields@[11]@);
    assert(f[12] == fields@[12]@ && f[19] == fields@[19]@ && f[20] == fields@[20]@ && f[21] == fields@[21]@);
    let parent_pid = match parse_i32(&fields[1]) {
        Some(v) => v,
        None => {
            return None;
        },
    };
    let tty_dev_number = match parse_i32(&fields[4]) {
        Some(v) => v,
        None => {
            return None;
        },
    };
    let cpu_user_time = match parse_u64(&fields[11]) {
        Some(v) => v,
        None => {
            return None;
        },
    };
    let cpu_system_time = match parse_u64(&fields[12]) {
        Some(v) => v,
        None => {
            return None;
        },
    };
    let start_time = match parse_u64(&fields[19]) {
        Some(v) => v,
        None => {
            return None;
        },
    };
    let vm_size = match parse_u64(&fields[20]) {
        Some(v) => v,
        None => {
            return None;
        },
    };
    let rss = match parse_u64(&fields[21]) {
        Some(v) => v,
        None => {
            return None;
        },
    };
    let mut name: Vec<u8> = Vec::new();
    let mut i: usize = open + 1;
    while i < close
        invariant
            open + 1 <= i <= close,
            close < b.len(),
            name@ == b@.subrange(open + 1, i as int),
        decreases close - i,
    {
        name.push(b[i]);
        i = i + 1;
        assert(name@ =~= b@.subrange(open + 1, i as int));
    }
    let state = fields[0][0];
    let s = Status {
        name,
        state,
        parent_pid,
        tty_dev_number,
        cpu_user_time,
        cpu_system_time,
        start_time,
        vm_size,
        rss,
    };
    assert(fields_ok(f));
    assert(status_matches(s, b@.subrange(open + 1, close as int), f));
    Some(s)
}

/// Converts clock ticks to nanoseconds, rounding down.
pub fn ticks_to_duration(ticks: u128, seconds_to_ticks: u64) -> (r: u128)
    requires
        seconds_to_ticks > 0,
        ticks * 1_000_000_000 <= u128::MAX,
    ensures
        r == ticks * 1_000_000_000 / (seconds_to_ticks as int),
{
    ticks * 1_000_000_000 / seconds_to_ticks as u128
}

pub open spec fn tty_major(dev: u32) -> int {
    (dev as int / 256) % 256
}

pub open spec fn tty_minor(dev: u32) -> int {
    dev as int % 256 + (dev as int / 0x10_0000) * 256
}

pub open spec fn hex_digit(d: int) -> char {
    seq!['0', '1', '2', '3', '4', '5', '6', '7', '8', '9', 'a', 'b', 'c', 'd', 'e', 'f'][d]
}

pub open spec fn pty_letter(d: int) -> char {
    seq!['p', 'q', 'r', 's', 't', 'u', 'v', 'w', 'x', 'y', 'z', 'a', 'b', 'c', 'd', 'e'][d]
}

/// The device path of a terminal, from its device number: legacy ptys,
/// virtual consoles, serial ports and pseudo-terminals; `major.minor` for
/// any other device.
pub open spec fn device_text(dev: u32) -> Seq<char> {
    let major = tty_major(dev);
    let minor = tty_minor(dev);
    if major == 3 && minor <= 255 {
        "/dev/tty"@ + seq![pty_letter(minor / 16), hex_digit(minor % 16)]
    } else if major == 4 && minor <= 63 {
        "/dev/tty"@ + dec(minor as nat)
    } else if major == 4 && minor <= 255 {
        "/dev/ttyS"@ + dec((minor - 64) as nat)
    } else if 136 <= major <= 143 && minor <= 255 {
        "/dev/pts/"@ + dec((minor + (major - 136) * 256) as nat)
    } else {
        dec(major as nat) + seq!['.'] + dec(minor as nat)
    }
}

fn hex_char(d: u32) -> (c: char)
    requires
        d < 16,
    ensures
        c == hex_digit(d as int),
{
    let digits = ['0', '1', '2', '3', '4', '5', '6', '7', '8', '9', 'a', 'b', 'c', 'd', 'e', 'f'];
    let c = digits[d as usize];
    assert(c == hex_digit(d as int));
    c
}

fn pty_char(d: u32) -> (c: char)
    requires
        d < 16,
    ensures
        c == pty_letter(d as int),
{
    let letters = ['p', 'q', 'r', 's', 't', 'u', 'v', 'w', 'x', 'y', 'z', 'a', 'b', 'c', 'd', 'e'];
    let c = letters[d as usize];
    assert(c == pty_letter(d as int));
    c
}

pub fn device_name(dev_number: u32) -> (r: String)
    ensures
        r@ == device_text(dev_number),
{
    let major: u32 = (dev_number / 256) % 256;
    let minor: u32 = dev_number % 256 + (dev_number / 0x10_0000) * 256;
    let mut out = String::new();
    if major == 3 && minor <= 255 {
        out.append("/dev/tty");
        push_char(&mut out, pty_char(minor / 16));
        push_char(&mut out, hex_char(minor % 16));
    } else if major == 4 && minor <= 63 {
        out.append("/dev/tty");
        push_decimal(&mut out, minor as u64);
    } else if major == 4 && minor <= 255 {
        out.append("/dev/ttyS");
        push_decimal(&mut out, (minor - 64) as u64);
    } else if 136 <= major && major <= 143 && minor <= 255 {
        out.append("/dev/pts/");
        push_decimal(&mut out, (minor + (major - 136) * 256) as u64);
    } else {
        push_decimal(&mut out, major as u64);
        push_char(&mut out, '.');
        push_decimal(&mut out, minor as u64);
    }
    assert(out@ =~= device_text(dev_number));
    out
}

/// The command line from the bytes of `/proc/<pid>/cmdline`: the arguments
/// joined with spaces (each NUL read as a space); `None` where the file is
/// empty.
pub fn join_cmd_line(bytes: &Vec<u8>) -> (r: Option<Vec<u8>>)
    ensures
        bytes.len() == 0 ==> r is None,
        bytes.len() > 0 ==> (r matches Option::Some(v) && v@ == Seq::new(
            bytes.len() as nat,
            |i: int| if bytes@[i] == 0 { 0x20u8 } else { bytes@[i] },
        )),
{
    if bytes.len() == 0 {
        return None;
    }
    let mut out: Vec<u8> = Vec::new();
    let mut i: usize = 0;
    while i < bytes.len()
        invariant
            i <= bytes.len(),
            out@ == Seq::new(i as nat, |k: int| if bytes@[k] == 0 { 0x20u8 } else { bytes@[k] }),
        decreases bytes.len() - i,
    {
        let b = bytes[i];
        out.push(if b == 0 { 0x20 } else { b });
        i = i + 1;
        assert(out@ =~= Seq::new(i as nat, |k: int| if bytes@[k] == 0 { 0x20u8 } else { bytes@[k] }));
    }
    Some(out)
}

/// Facts about the whole system that a record is built with. Instants are
/// in nanoseconds since the Unix epoch, durations in nanoseconds.
pub struct SystemFacts {
    pub now: u64,
    pub uptime: u64,
    pub ticks_per_second: u64,
    pub page_size: u64,
    pub total_ram: u64,
}

pub open spec fn capped(x: int) -> u64 {
    if x > u64::MAX {
        u64::MAX
    } else if x < 0 {
        0
    } else {
        x as u64
    }
}

pub open spec fn ticks_ns(ticks: int, per_second: int) -> int {
    ticks * 1_000_000_000 / per_second
}

/// When the process started: boot time plus its start in ticks.
pub open spec fn start_instant(s: Status, f: SystemFacts) -> u64 {
    capped(capped(f.now - f.uptime) + ticks_ns(s.start_time as int, f.ticks_per_second as int))
}

pub open spec fn cpu_ns(s: Status, f: SystemFacts) -> u64 {
    capped(ticks_ns(s.cpu_user_time + s.cpu_system_time, f.ticks_per_second as int))
}

/// CPU time over time since start, in basis points; zero for a process
/// that started no earlier than now.
pub open spec fn cpu_usage_bp(s: Status, f: SystemFacts) -> u64 {
    let running = f.now - start_instant(s, f);
    if running > 0 {
        capped(cpu_ns(s, f) * 10000 / running)
    } else {
        0
    }
}

pub open spec fn resident_bytes(s: Status, f: SystemFacts) -> u64 {
    capped(s.rss * f.page_size)
}

pub open spec fn mem_usage_bp(s: Status, f: SystemFacts) -> u64 {
    if f.total_ram > 0 {
        capped(resident_bytes(s, f) * 10000 / (f.total_ram as int))
    } else {
        0
    }
}

/// The record of a process from what Linux reports of it. A zombie (state
/// `Z`) keeps its name, owner and parent; its path and command line no
/// longer exist.
pub fn build_record(
    status: &Status,
    uid: Uid,
    username: String,
    name: String,
    facts: &SystemFacts,
    path: Info<Option<String>>,
    cmd_line: Info<Option<String>>,
) -> (r: ProcessInfo)
    requires
        facts.ticks_per_second > 0,
    ensures
        r.is_defunct == (status.state == 0x5a),
        r.parent_pid == Info::Present(Pid(status.parent_pid)),
        r.uid == Info::Present(uid),
        r.username == Info::Present(username),
        r.name == Info::Present(name),
        r.is_defunct ==> r.path is Defunct && r.cmd_line is Defunct,
        !r.is_defunct ==> r.path == path && r.cmd_line == cmd_line,
        r.cpu_time == Info::Present(cpu_ns(*status, *facts)),
        r.cpu_usage == Info::Present(cpu_usage_bp(*status, *facts)),
        r.mem_usage == Info::Present(mem_usage_bp(*status, *facts)),
        r.virtual_mem_size == Info::Present(status.vm_size),
        r.physical_mem_size == Info::Present(resident_bytes(*status, *facts)),
        r.start_time == Info::Present(start_instant(*status, *facts)),
        status.tty_dev_number == 0 ==> r.controlling_tty == Info::Present(Option::<String>::None),
        status.tty_dev_number != 0 ==> (r.controlling_tty matches Info::Present(Option::Some(t)) && t@
            == device_text(status.tty_dev_number as u32)),
{
    let is_defunct = status.state == 0x5a;
    let per_second = facts.ticks_per_second;
    let boot: u64 = if facts.now > facts.uptime {
        facts.now - facts.uptime
    } else {
        0
    };
    let since_boot = ticks_to_duration(status.start_time as u128, per_second);
    let start_sum: u128 = boot as u128 + since_boot;
    let start: u64 = if start_sum > u64::MAX as u128 {
        u64::MAX
    } else {
        start_sum as u64
    };
    let cpu_wide = ticks_to_duration(status.cpu_user_time as u128 + status.cpu_system_time as u128, per_second);
    let cpu: u64 = if cpu_wide > u64::MAX as u128 {
        u64::MAX
    } else {
        cpu_wide as u64
    };
    let cpu_usage: u64 = if facts.now > start {
        let q: u128 = cpu as u128 * 10000 / (facts.now - start) as u128;
        if q > u64::MAX as u128 {
            u64::MAX
        } else {
            q as u64
        }
    } else {
        0
    };
    assert(status.rss as u128 * facts.page_size as u128 <= 0xFFFF_FFFF_FFFF_FFFF * 0xFFFF_FFFF_FFFF_FFFF) by (nonlinear_arith)
        requires
            status.rss <= 0xFFFF_FFFF_FFFF_FFFFu64,
            facts.page_size <= 0xFFFF_FFFF_FFFF_FFFFu64,
    ;
    let phys_wide: u128 = status.rss as u128 * facts.page_size as u128;
    let phys: u64 = if phys_wide > u64::MAX as u128 {
        u64::MAX
    } else {
        phys_wide as u64
    };
    let mem_usage: u64 = if facts.total_ram > 0 {
        let q: u128 = phys as u128 * 10000 / facts.total_ram as u128;
        if q > u64::MAX as u128 {
            u64::MAX
        } else {
            q as u64
        }
    } else {
        0
    };
    let controlling_tty = if status.tty_dev_number == 0 {
        None
    } else {
        Some(device_name(#[verifier::truncate] (status.tty_dev_number as u32)))
    };
    ProcessInfo {
        is_defunct,
        parent_pid: Info::Present(Pid(status.parent_pid)),
        uid: Info::Present(uid),
        username: Info::Present(username),
        path: if is_defunct {
            Info::Defunct
        } else {
            path
        },
        cmd_line: if is_defunct {
            Info::Defunct
        } else {
            cmd_line
        },
        name: Info::Present(name),
        cpu_usage: Info::Present(cpu_usage),
        cpu_time: Info::Present(cpu),
        mem_usage: Info::Present(mem_usage),
        virtual_mem_size: Info::Present(status.vm_size),
        physical_mem_size: Info::Present(phys),
        controlling_tty: Info::Present(controlling_tty),
        start_time: Info::Present(start),
    }
}

} // verus!
