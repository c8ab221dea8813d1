use vstd::prelude::*;

use crate::ids::{Pid, Uid};
use crate::info::Info;
use crate::process_info::ProcessInfo;

verus! {

/// Converts Mach absolute-time ticks to nanoseconds with the timebase
/// `numer / denom`, rounding down.
pub fn ticks_to_duration(ticks: u128, numer: u32, denom: u32) -> (r: u128)
    requires
        denom > 0,
        ticks * numer <= u128::MAX,
    ensures
        r == ticks * numer / (denom as int),
{
    ticks * numer as u128 / denom as u128
}

/// What the short BSD query tells of a process, which any user may ask.
pub struct ShortFacts {
    pub parent_pid: Pid,
    pub uid: Uid,
    pub username: String,
    pub path: String,
    pub cmd_line: Info<Option<String>>,
    pub name: String,
}

/// The record of a process whose task counters were denied: what the short
/// query gave, the rest unauthorized.
pub fn unauthorized_record(facts: ShortFacts) -> (r: ProcessInfo)
    ensures
        !r.is_defunct,
        r.parent_pid == Info::Present(facts.parent_pid),
        r.uid == Info::Present(facts.uid),
        r.username == Info::Present(facts.username),
        r.path == Info::Present(Option::Some(facts.path)),
        r.cmd_line == facts.cmd_line,
        r.name == Info::Present(facts.name),
        r.cpu_usage is Unauthorized,
        r.cpu_time is Unauthorized,
        r.mem_usage is Unauthorized,
        r.virtual_mem_size is Unauthorized,
        r.physical_mem_size is Unauthorized,
        r.controlling_tty is Unauthorized,
        r.start_time is Unauthorized,
{
    ProcessInfo {
        is_defunct: false,
        parent_pid: Info::Present(facts.parent_pid),
        uid: Info::Present(facts.uid),
        username: Info::Present(facts.username),
        path: Info::Present(Some(facts.path)),
        cmd_line: facts.cmd_line,
        name: Info::Present(facts.name),
        cpu_usage: Info::Unauthorized,
        cpu_time: Info::Unauthorized,
        mem_usage: Info::Unauthorized,
        virtual_mem_size: Info::Unauthorized,
        physical_mem_size: Info::Unauthorized,
        controlling_tty: Info::Unauthorized,
        start_time: Info::Unauthorized,
    }
}

/// What the task query tells of a process.
pub struct TaskFacts {
    /// Start, in seconds and microseconds since the Unix epoch.
    pub start_sec: u64,
    pub start_usec: u64,
    /// User plus system time, in nanoseconds.
    pub cpu_time: u64,
    /// The threads' usage in thousandths of a CPU.
    pub thread_usage: Vec<i32>,
    pub virtual_size: u64,
    pub resident_size: u64,
    pub total_memory: u64,
    pub controlling_tty: Option<String>,
}

/// Sum of the first `i` thread usages.
pub open spec fn usage_sum(u: Seq<i32>, i: int) -> int
    decreases i,
{
    if i <= 0 {
        0
    } else {
        usage_sum(u, i - 1) + u[i - 1]
    }
}

/// The threads' total usage in basis points; none below zero.
pub open spec fn cpu_usage_bp(u: Seq<i32>) -> u64 {
    let bp = usage_sum(u, u.len() as int) * 10;
    if bp < 0 {
        0
    } else if bp > u64::MAX {
        u64::MAX
    } else {
        bp as u64
    }
}

pub open spec fn start_ns(t: TaskFacts) -> u64 {
    let ns = t.start_sec * 1_000_000_000 + t.start_usec * 1000;
    if ns > u64::MAX {
        u64::MAX
    } else {
        ns as u64
    }
}

pub open spec fn mem_bp(t: TaskFacts) -> u64 {
    if t.total_memory == 0 {
        0
    } else {
        let bp = t.resident_size * 10000 / (t.total_memory as int);
        if bp > u64::MAX {
            u64::MAX
        } else {
            bp as u64
        }
    }
}

fn total_usage(u: &Vec<i32>) -> (r: u64)
    ensures
        r == cpu_usage_bp(u@),
{
    let mut sum: i128 = 0;
    let mut i: usize = 0;
    while i < u.len()
        invariant
            i <= u.len(),
            sum == usage_sum(u@, i as int),
            -0x8000_0000 * i <= sum <= 0x7FFF_FFFF * i,
        decreases u.len() - i,
    {
        sum = sum + u[i] as i128;
        i = i + 1;
    }
    let bp: i128 = sum * 10;
    if bp < 0 {
        0
    } else if bp > u64::MAX as i128 {
        u64::MAX
    } else {
        bp as u64
    }
}

/// The full record of a process on macOS.
pub fn build_record(short: ShortFacts, task: TaskFacts) -> (r: ProcessInfo)
    ensures
        !r.is_defunct,
        r.parent_pid == Info::Present(short.parent_pid),
        r.uid == Info::Present(short.uid),
        r.username == Info::Present(short.username),
        r.path == Info::Present(Option::Some(short.path)),
        r.cmd_line == short.cmd_line,
        r.name == Info::Present(short.name),
        r.cpu_usage == Info::Present(cpu_usage_bp(task.thread_usage@)),
        r.cpu_time == Info::Present(task.cpu_time),
        r.mem_usage == Info::Present(mem_bp(task)),
        r.virtual_mem_size == Info::Present(task.virtual_size),
        r.physical_mem_size == Info::Present(task.resident_size),
        r.controlling_tty == Info::Present(task.controlling_tty),
        r.start_time == Info::Present(start_ns(task)),
{
    let cpu_usage = total_usage(&task.thread_usage);
    let ns: u128 = task.start_sec as u128 * 1_000_000_000 + task.start_usec as u128 * 1000;
    let start: u64 = if ns > u64::MAX as u128 {
        u64::MAX
    } else {
        ns as u64
    };
    let mem_usage: u64 = if task.total_memory == 0 {
        0
    } else {
        let bp: u128 = task.resident_size as u128 * 10000 / task.total_memory as u128;
        if bp > u64::MAX as u128 {
            u64::MAX
        } else {
            bp as u64
        }
    };
    assert(mem_usage == mem_bp(task));
    assert(start == start_ns(task));
    ProcessInfo {
        is_defunct: false,
        parent_pid: Info::Present(short.parent_pid),
        uid: Info::Present(short.uid),
        username: Info::Present(short.username),
        path: Info::Present(Some(short.path)),
        cmd_line: short.cmd_line,
        name: Info::Present(short.name),
        cpu_usage: Info::Present(cpu_usage),
        cpu_time: Info::Present(task.cpu_time),
        mem_usage: Info::Present(mem_usage),
        virtual_mem_size: Info::Present(task.virtual_size),
        physical_mem_size: Info::Present(task.resident_size),
        controlling_tty: Info::Present(task.controlling_tty),
        start_time: Info::Present(start),
    }
}

/// The short name from a fixed-size, NUL-padded buffer: up to the first
/// NUL, or the whole buffer.
pub fn short_name(buf: &Vec<u8>) -> (r: Vec<u8>)
    ensures
        exists|n: int|
            #![trigger buf@.take(n)]
            0 <= n <= buf.len() && r@ == buf@.take(n) && (n == buf.len() || buf@[n] == 0) && forall|k: int|
                0 <= k < n ==> buf@[k] != 0,
{
    let mut r: Vec<u8> = Vec::new();
    let mut i: usize = 0;
    while i < buf.len() && buf[i] != 0
        invariant
            i <= buf.len(),
            r@ == buf@.take(i as int),
            forall|k: int| 0 <= k < i ==> buf@[k] != 0,
        decreases buf.len() - i,
    {
        r.push(buf[i]);
        i = i + 1;
        assert(r@ =~= buf@.take(i as int));
    }
    let ghost n = i as int;
    assert(0 <= n <= buf.len() && r@ == buf@.take(n) && (n == buf.len() || buf@[n] == 0) && forall|k: int|
        0 <= k < n ==> buf@[k] != 0);
    r
}

} // verus!
