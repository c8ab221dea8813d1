use vstd::prelude::*;

use crate::ids::{Pid, Uid};
use crate::info::Info;
use crate::process_info::ProcessInfo;
use regex::Regex;

verus! {

/// `regex::Regex`, carried through unread: a compiled pattern.
#[verifier::external_type_specification]
#[verifier::external_body]
pub struct ExRegex(Regex);

/// Relies on `regex::Regex::is_match`: whether the pattern matches somewhere
/// in the text. Nothing is assumed of the answer.
pub assume_specification[ Regex::is_match ](re: &Regex, haystack: &str) -> bool;

/// Which processes to show.
pub struct ProcessFilter {
    /// Matched, case-insensitively, against the path and the command line.
    pub regex: Option<Regex>,
    /// Keep the processes that the regex does not match instead.
    pub invert_regex: bool,
    /// Owners to allow, by id; with `usernames`, no restriction when both
    /// are empty.
    pub uids: Vec<Uid>,
    /// Owners to allow, by name.
    pub usernames: Vec<String>,
    pub include_defunct: bool,
    /// Keep processes whose executable lies under a protected prefix.
    pub include_sip: bool,
    /// The protected prefixes; none where the platform has no such notion.
    pub sip_prefixes: Vec<String>,
}

pub open spec fn owner_allowed(info: ProcessInfo, f: ProcessFilter) -> bool {
    (f.uids.len() == 0 && f.usernames.len() == 0) || (match info.uid {
        Info::Present(u) => f.uids@.contains(u),
        _ => false,
    }) || (match info.username {
        Info::Present(name) => exists|i: int| 0 <= i < f.usernames.len() && (#[trigger] f.usernames@[i])@ == name@,
        _ => false,
    })
}

/// The criteria that need no pattern matching: defunct processes, protected
/// executables, owners.
pub open spec fn passes_fixed(info: ProcessInfo, f: ProcessFilter) -> bool {
    &&& f.include_defunct || !info.is_defunct
    &&& f.include_sip || !info.is_protected_by(f.sip_prefixes@)
    &&& owner_allowed(info, f)
}

/// Whether a process is shown, given whether the pattern matched its path
/// text and its command-line text.
pub open spec fn accepts(info: ProcessInfo, f: ProcessFilter, path_hit: bool, cmd_hit: bool) -> bool {
    &&& passes_fixed(info, f)
    &&& f.regex is None || (f.invert_regex != (path_hit || cmd_hit))
}

/// Every criterion is unset: no pattern, no owner restriction, defunct and
/// protected processes included.
pub open spec fn criteria_unset(f: ProcessFilter) -> bool {
    &&& f.regex is None
    &&& f.uids.len() == 0
    &&& f.usernames.len() == 0
    &&& f.include_defunct
    &&& f.include_sip
}

fn contains_uid(uids: &Vec<Uid>, u: Uid) -> (r: bool)
    ensures
        r == uids@.contains(u),
{
    let mut i: usize = 0;
    while i < uids.len()
        invariant
            i <= uids.len(),
            forall|k: int| 0 <= k < i ==> uids@[k] != u,
        decreases uids.len() - i,
    {
        if uids[i] == u {
            assert(uids@[i as int] == u);
            return true;
        }
        i = i + 1;
    }
    false
}

fn contains_name(names: &Vec<String>, name: &String) -> (r: bool)
    ensures
        r == exists|i: int| 0 <= i < names.len() && (#[trigger] names@[i])@ == name@,
{
    let mut i: usize = 0;
    while i < names.len()
        invariant
            i <= names.len(),
            forall|k: int| 0 <= k < i ==> (#[trigger] names@[k])@ != name@,
        decreases names.len() - i,
    {
        if names[i] == *name {
            return true;
        }
        i = i + 1;
    }
    false
}

impl ProcessInfo {
    fn passes_fixed_criteria(&self, filter: &ProcessFilter) -> (r: bool)
        ensures
            r == passes_fixed(*self, *filter),
    {
        if !(filter.include_defunct || !self.is_defunct) {
            return false;
        }
        if !(filter.include_sip || !self.is_sip_protected(&filter.sip_prefixes)) {
            return false;
        }
        if filter.uids.len() == 0 && filter.usernames.len() == 0 {
            return true;
        }
        let by_uid = match &self.uid {
            Info::Present(u) => contains_uid(&filter.uids, *u),
            _ => false,
        };
        by_uid || match &self.username {
            Info::Present(name) => contains_name(&filter.usernames, name),
            _ => false,
        }
    }

    /// Decides the filter once the pattern's answers on the path text and
    /// the command-line text are known.
    pub fn matches_with(&self, filter: &ProcessFilter, path_hit: bool, cmd_hit: bool) -> (r: bool)
        ensures
            r == accepts(*self, *filter, path_hit, cmd_hit),
    {
        self.passes_fixed_criteria(filter) && (filter.regex.is_none() || (filter.invert_regex != (
        path_hit || cmd_hit)))
    }

    /// Whether the process is shown. The pattern, if any, is matched against
    /// the displayed path and command line, placeholders included, and only
    /// once the other criteria pass.
    pub fn filter(&self, _pid: Pid, filter: &ProcessFilter) -> (r: bool)
        ensures
            exists|path_hit: bool, cmd_hit: bool| r == accepts(*self, *filter, path_hit, cmd_hit),
            filter.regex is None ==> r == passes_fixed(*self, *filter),
    {
        if !self.passes_fixed_criteria(filter) {
            assert(!accepts(*self, *filter, false, false));
            return false;
        }
        match &filter.regex {
            None => {
                assert(accepts(*self, *filter, false, false));
                true
            },
            Some(regex) => {
                let path_hit = regex.is_match(self.path.to_str());
                let cmd_hit = regex.is_match(self.cmd_line.to_str());
                let r = self.matches_with(filter, path_hit, cmd_hit);
                assert(r == accepts(*self, *filter, path_hit, cmd_hit));
                r
            },
        }
    }
}

/// The records that pass, in their order, where `hits` gives for each
/// record whether the pattern matched its path and its command line.
pub open spec fn kept(records: Seq<(Pid, ProcessInfo)>, f: ProcessFilter, hits: Seq<(bool, bool)>) -> Seq<(Pid, ProcessInfo)>
    decreases records.len(),
{
    if records.len() == 0 {
        Seq::empty()
    } else {
        let rest = kept(records.drop_last(), f, hits.drop_last());
        if accepts(records.last().1, f, hits.last().0, hits.last().1) {
            rest.push(records.last())
        } else {
            rest
        }
    }
}

impl ProcessInfo {
    /// Keeps the records that pass the filter, in their order.
    pub fn apply_filter(records: Vec<(Pid, ProcessInfo)>, filter: &ProcessFilter) -> (r: Vec<(Pid, ProcessInfo)>)
        ensures
            exists|hits: Seq<(bool, bool)>| hits.len() == records.len() && r@ == kept(records@, *filter, hits),
            filter.regex is None ==> forall|hits: Seq<(bool, bool)>|
                hits.len() == records.len() ==> r@ == #[trigger] kept(records@, *filter, hits),
    {
        let ghost orig = records@;
        let mut rest = records;
        let mut out: Vec<(Pid, ProcessInfo)> = Vec::new();
        let ghost mut hits: Seq<(bool, bool)> = Seq::empty();
        while rest.len() > 0
            invariant
                hits.len() + rest.len() == orig.len(),
                rest@ == orig.subrange(hits.len() as int, orig.len() as int),
                out@ == kept(orig.subrange(0, hits.len() as int), *filter, hits),
                filter.regex is None ==> forall|h: Seq<(bool, bool)>|
                    h.len() == hits.len() ==> out@ == #[trigger] kept(orig.subrange(0, hits.len() as int), *filter, h),
            decreases rest.len(),
        {
            let item = rest.remove(0);
            let ghost k = hits.len() as int;
            let keep = item.1.filter(item.0, filter);
            let ghost (ph, ch) = choose|ph: bool, ch: bool| keep == accepts(item.1, *filter, ph, ch);
            proof {
                let prefix = orig.subrange(0, k + 1);
                assert(prefix.drop_last() =~= orig.subrange(0, k));
                assert(prefix.last() == item);
                let old_hits = hits;
                hits = hits.push((ph, ch));
                assert(hits.drop_last() =~= old_hits);
                assert(kept(prefix, *filter, hits) == (if keep { out@.push(item) } else { out@ }));
                if filter.regex is None {
                    assert forall|h: Seq<(bool, bool)>| h.len() == hits.len() implies
                        #[trigger] kept(prefix, *filter, h) == (if keep { out@.push(item) } else { out@ }) by {
                        assert(kept(orig.subrange(0, k), *filter, h.drop_last()) == out@);
                    }
                }
                assert(hits.drop_last() =~= hits.subrange(0, k));
            }
            if keep {
                out.push(item);
            }
            proof {
                assert(rest@ =~= orig.subrange(hits.len() as int, orig.len() as int));
            }
        }
        proof {
            assert(orig.subrange(0, hits.len() as int) =~= orig);
        }
        out
    }
}

/// With every criterion unset, the filter keeps every record, in order.
pub proof fn lemma_unset_filter_keeps_all(
    records: Seq<(Pid, ProcessInfo)>,
    f: ProcessFilter,
    hits: Seq<(bool, bool)>,
)
    requires
        criteria_unset(f),
        hits.len() == records.len(),
    ensures
        kept(records, f, hits) == records,
    decreases records.len(),
{
    if records.len() > 0 {
        lemma_unset_filter_keeps_all(records.drop_last(), f, hits.drop_last());
        assert(records.drop_last().push(records.last()) =~= records);
    }
}

} // verus!
