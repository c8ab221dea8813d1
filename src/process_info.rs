use vstd::prelude::*;

use crate::ids::{Pid, Uid};
use crate::info::Info;

verus! {

/// A snapshot of one process, taken once per poll.
///
/// Fractions are held in basis points (10000 stands for the whole: one CPU
/// fully busy, or all of physical memory), durations and instants in
/// nanoseconds, instants since the Unix epoch.
#[derive(Clone, Debug)]
pub struct ProcessInfo {
    pub is_defunct: bool,
    pub parent_pid: Info<Pid>,
    pub uid: Info<Uid>,
    pub username: Info<String>,
    pub path: Info<Option<String>>,
    pub cmd_line: Info<Option<String>>,
    pub name: Info<String>,
    pub cpu_usage: Info<u64>,
    pub cpu_time: Info<u64>,
    pub mem_usage: Info<u64>,
    pub virtual_mem_size: Info<u64>,
    pub physical_mem_size: Info<u64>,
    pub controlling_tty: Info<Option<String>>,
    pub start_time: Info<u64>,
}

/// Whether `p` is a prefix of `s`.
pub open spec fn is_prefix(p: Seq<char>, s: Seq<char>) -> bool {
    p.len() <= s.len() && s.subrange(0, p.len() as int) == p
}

/// Whether `s` starts with `p`.
pub fn starts_with(s: &str, p: &str) -> (r: bool)
    ensures
        r == is_prefix(p@, s@),
{
    let n = p.unicode_len();
    if n > s.unicode_len() {
        return false;
    }
    let mut i: usize = 0;
    while i < n
        invariant
            i <= n,
            n == p@.len(),
            n <= s@.len(),
            s@.subrange(0, i as int) == p@.subrange(0, i as int),
        decreases n - i,
    {
        if s.get_char(i) != p.get_char(i) {
            assert(s@.subrange(0, n as int)[i as int] != p@[i as int]);
            return false;
        }
        i = i + 1;
        assert(s@.subrange(0, i as int) =~= p@.subrange(0, i as int));
    }
    assert(p@.subrange(0, n as int) =~= p@);
    true
}

impl ProcessInfo {
    /// The record of a process that exited before it could be queried: every
    /// field is gone.
    pub fn defunct() -> (r: ProcessInfo)
        ensures
            r.is_defunct,
            r.parent_pid is Defunct,
            r.uid is Defunct,
            r.username is Defunct,
            r.path is Defunct,
            r.cmd_line is Defunct,
            r.name is Defunct,
            r.cpu_usage is Defunct,
            r.cpu_time is Defunct,
            r.mem_usage is Defunct,
            r.virtual_mem_size is Defunct,
            r.physical_mem_size is Defunct,
            r.controlling_tty is Defunct,
            r.start_time is Defunct,
    {
        ProcessInfo {
            is_defunct: true,
            parent_pid: Info::Defunct,
            uid: Info::Defunct,
            username: Info::Defunct,
            path: Info::Defunct,
            cmd_line: Info::Defunct,
            name: Info::Defunct,
            cpu_usage: Info::Defunct,
            cpu_time: Info::Defunct,
            mem_usage: Info::Defunct,
            virtual_mem_size: Info::Defunct,
            physical_mem_size: Info::Defunct,
            controlling_tty: Info::Defunct,
            start_time: Info::Defunct,
        }
    }

    /// Whether the executable's path lies under one of the protected prefixes.
    pub open spec fn is_protected_by(&self, prefixes: Seq<String>) -> bool {
        match self.path {
            Info::Present(Option::Some(path)) => exists|i: int|
                0 <= i < prefixes.len() && is_prefix((#[trigger] prefixes[i])@, path@),
            _ => false,
        }
    }

    pub fn is_sip_protected(&self, prefixes: &Vec<String>) -> (r: bool)
        ensures
            r == self.is_protected_by(prefixes@),
    {
        match &self.path {
            Info::Present(Some(path)) => {
                let mut i: usize = 0;
                while i < prefixes.len()
                    invariant
                        i <= prefixes.len(),
                        self.path == Info::Present(Option::Some(*path)),
                        forall|k: int| 0 <= k < i ==> !is_prefix((#[trigger] prefixes@[k])@, path@),
                    decreases prefixes.len() - i,
                {
                    if starts_with(path.as_str(), prefixes[i].as_str()) {
                        return true;
                    }
                    i = i + 1;
                }
                false
            },
            _ => false,
        }
    }
}

/// The prefixes under which macOS's system integrity protection keeps
/// executables.
pub fn sip_prefixes() -> (r: Vec<String>)
    ensures
        r.len() == 8,
        r@[0]@ == "/bin"@,
        r@[1]@ == "/sbin"@,
        r@[2]@ == "/usr/bin"@,
        r@[3]@ == "/usr/sbin"@,
        r@[4]@ == "/usr/libexec"@,
        r@[5]@ == "/System"@,
        r@[6]@ == "/Library/Apple"@,
        r@[7]@ == "/private/var/db/com.apple.xpc.roleaccountd.staging"@,
{
    let mut r: Vec<String> = Vec::new();
    r.push(String::from_str("/bin"));
    r.push(String::from_str("/sbin"));
    r.push(String::from_str("/usr/bin"));
    r.push(String::from_str("/usr/sbin"));
    r.push(String::from_str("/usr/libexec"));
    r.push(String::from_str("/System"));
    r.push(String::from_str("/Library/Apple"));
    r.push(String::from_str("/private/var/db/com.apple.xpc.roleaccountd.staging"));
    r
}

/// Why a query for one process failed.
#[derive(Clone, Copy, Debug, PartialEq, Eq, Structural)]
pub enum QueryFailure {
    /// The process exited between listing and querying.
    NoSuchProcess,
    /// The system denied the read.
    PermissionDenied,
    /// Anything else, such as malformed data.
    Other,
}

/// What becomes of a process whose query failed.
#[derive(Clone, Copy, Debug, PartialEq, Eq, Structural)]
pub enum Recovery {
    /// Shown as a defunct record.
    Defunct,
    /// Shown with the fields read so far, the rest unauthorized.
    Unauthorized,
    /// Left out without a word.
    SkipSilently,
    /// Left out, with a diagnostic.
    Report,
}

/// Decides what a failed query leads to. A vanished process is shown as
/// defunct; a denied read marks the remaining fields unauthorized where part
/// of the record was already read (`partial`), and otherwise drops the
/// process quietly; any other failure drops it with a diagnostic. No failure
/// stops the other queries.
pub fn recover(failure: QueryFailure, partial: bool) -> (r: Recovery)
    ensures
        failure == QueryFailure::NoSuchProcess ==> r == Recovery::Defunct,
        failure == QueryFailure::PermissionDenied && partial ==> r == Recovery::Unauthorized,
        failure == QueryFailure::PermissionDenied && !partial ==> r == Recovery::SkipSilently,
        failure == QueryFailure::Other ==> r == Recovery::Report,
{
    match failure {
        QueryFailure::NoSuchProcess => Recovery::Defunct,
        QueryFailure::PermissionDenied => if partial {
            Recovery::Unauthorized
        } else {
            Recovery::SkipSilently
        },
        QueryFailure::Other => Recovery::Report,
    }
}

} // verus!
