//! The scan's data model and its convergence step.
//!
//! One task per candidate process produces at most one record; the outcomes
//! converge into a single collection whose order carries no meaning, and the
//! report is that collection sorted ascending by usage with an exact total.

use vstd::prelude::*;
use rayon::prelude::ParallelSliceMut;
use crate::field::all_digits;
use crate::field::digits_val;
use crate::field::is_digit;
use crate::field::lemma_digits_val_nonneg;

verus! {

broadcast use vstd::seq_lib::group_to_multiset_ensures;

/// One process's row of the report: identifier, usage in bytes, and the
/// sanitized command line.
pub struct ProcessRecord {
    /// The process identifier.
    pub pid: u64,
    /// The requested field's value in bytes.
    pub usage: i64,
    /// The display name read from the command line.
    pub name: String,
}

/// The outcome of one process's task: a record only when the process
/// reported a non-zero value, since zero stands for "absent".
pub fn record_for(pid: u64, usage: i64, name: String) -> (r: Option<ProcessRecord>)
    ensures
        r == (if usage == 0 {
            Option::<ProcessRecord>::None
        } else {
            Option::Some(ProcessRecord { pid, usage, name })
        }),
{
    if usage == 0 {
        Option::None
    } else {
        Option::Some(ProcessRecord { pid, usage, name })
    }
}

/// The pid a directory entry name denotes: an optional `'+'`, then only
/// digits, denoting a positive value the pid type can hold; `None` for any
/// other name.
pub open spec fn spec_parse_pid(s: Seq<u8>) -> Option<u64> {
    let digits = if s.len() > 0 && s[0] == 43 {
        s.drop_first()
    } else {
        s
    };
    if all_digits(digits) && 0 < digits_val(digits) <= u64::MAX {
        Option::Some(digits_val(digits) as u64)
    } else {
        Option::None
    }
}

/// Parses a process-listing entry name as a candidate pid.
#[verifier::loop_isolation(false)]
pub fn parse_pid(name: &Vec<u8>) -> (r: Option<u64>)
    ensures
        r == spec_parse_pid(name@),
{
    let n = name.len();
    let dstart: usize = if n > 0 && name[0] == 43 {
        1
    } else {
        0
    };
    let ghost digits = name@.skip(dstart as int);
    proof {
        if dstart == 1 {
            assert(digits =~= name@.drop_first());
        } else {
            assert(digits =~= name@);
        }
    }
    if dstart == n {
        return Option::None;
    }
    let mut i: usize = dstart;
    let mut m: u64 = 0;
    let mut ovf: bool = false;
    while i < n
        invariant
            dstart <= i <= n,
            forall|k: int| dstart <= k < i ==> is_digit(name@[k]),
            !ovf ==> m == digits_val(name@.subrange(dstart as int, i as int)),
            ovf ==> digits_val(name@.subrange(dstart as int, i as int)) > u64::MAX,
        decreases n - i,
    {
        let b = name[i];
        if b < 48 || b > 57 {
            proof {
                assert(digits[i - dstart] == name@[i as int]);
                assert(!all_digits(digits));
            }
            return Option::None;
        }
        proof {
            let pre = name@.subrange(dstart as int, i as int);
            let post = name@.subrange(dstart as int, i + 1);
            assert(post.drop_last() =~= pre);
            assert(post.last() == name@[i as int]);
            lemma_digits_val_nonneg(pre);
        }
        if !ovf {
            if m > 1844674407370955161 {
                ovf = true;
            } else {
                let m10: u64 = m * 10;
                let d: u64 = (b - 48) as u64;
                if d > u64::MAX - m10 {
                    ovf = true;
                } else {
                    m = m10 + d;
                }
            }
        }
        i += 1;
    }
    proof {
        assert(digits =~= name@.subrange(dstart as int, i as int));
        assert(all_digits(digits));
    }
    if ovf {
        Option::None
    } else if m == 0 {
        Option::None
    } else {
        Option::Some(m)
    }
}

/// The records among a sequence of task outcomes, in arrival order.
pub open spec fn spec_collect(s: Seq<Option<ProcessRecord>>) -> Seq<ProcessRecord>
    decreases s.len(),
{
    if s.len() == 0 {
        Seq::empty()
    } else {
        let rest = spec_collect(s.drop_last());
        match s.last() {
            Option::Some(r) => rest.push(r),
            Option::None => rest,
        }
    }
}

/// Collection is exact: each record appears in the collected sequence as
/// often as a task produced it, and empty outcomes leave no trace.
pub proof fn lemma_collect_counts(s: Seq<Option<ProcessRecord>>)
    ensures
        forall|r: ProcessRecord|
            spec_collect(s).to_multiset().count(r) == s.to_multiset().count(Option::Some(r)),
    decreases s.len(),
{
    if s.len() == 0 {
        assert forall|r: ProcessRecord|
            spec_collect(s).to_multiset().count(r) == s.to_multiset().count(
                Option::Some(r),
            ) by {
            assert(!s.contains(Option::Some(r)));
            assert(!spec_collect(s).contains(r));
        }
    } else {
        let pre = s.drop_last();
        lemma_collect_counts(pre);
        assert(pre.push(s.last()) =~= s);
        match s.last() {
            Option::Some(x) => {
                assert(spec_collect(s) == spec_collect(pre).push(x));
            },
            Option::None => {
                assert(spec_collect(s) == spec_collect(pre));
                assert forall|r: ProcessRecord|
                    s.to_multiset().count(Option::Some(r)) == pre.to_multiset().count(
                        Option::Some(r),
                    ) by {
                    assert(s.to_multiset() =~= pre.to_multiset().insert(Option::None));
                }
            },
        }
    }
}

/// Order-independence of the convergence step: outcome sequences that hold
/// the same tasks' results in any two arrival orders collect to the same
/// set of records.
pub proof fn lemma_collect_order_independent(
    a: Seq<Option<ProcessRecord>>,
    b: Seq<Option<ProcessRecord>>,
)
    requires
        a.to_multiset() == b.to_multiset(),
    ensures
        spec_collect(a).to_multiset() == spec_collect(b).to_multiset(),
{
    lemma_collect_counts(a);
    lemma_collect_counts(b);
    assert(spec_collect(a).to_multiset() =~= spec_collect(b).to_multiset());
}

/// No record of zero usage is ever collected: when every task withholds
/// records for the absent value, the collected report has none.
pub proof fn lemma_zero_usage_absent(s: Seq<Option<ProcessRecord>>)
    requires
        forall|i: int|
            0 <= i < s.len() ==> (#[trigger] s[i] matches Option::Some(r) ==> r.usage != 0),
    ensures
        forall|j: int| 0 <= j < spec_collect(s).len() ==> #[trigger] spec_collect(s)[j].usage != 0,
    decreases s.len(),
{
    if s.len() > 0 {
        let pre = s.drop_last();
        assert(forall|i: int|
            0 <= i < pre.len() ==> (#[trigger] pre[i] matches Option::Some(r) ==> r.usage != 0));
        lemma_zero_usage_absent(pre);
        assert(s[s.len() - 1] matches Option::Some(r) ==> r.usage != 0);
        let c = spec_collect(s);
        let cp = spec_collect(pre);
        assert forall|j: int| 0 <= j < c.len() implies #[trigger] c[j].usage != 0 by {
            match s.last() {
                Option::Some(x) => {
                    assert(c == cp.push(x));
                    if j < cp.len() {
                        assert(c[j] == cp[j]);
                    } else {
                        assert(c[j] == x);
                    }
                },
                Option::None => {
                    assert(c == cp);
                    assert(c[j] == cp[j]);
                },
            }
        }
    }
}

/// Drains the task outcomes into the scan's record collection, keeping
/// every produced record and dropping the empty outcomes.
pub fn collect_outcomes(outcomes: Vec<Option<ProcessRecord>>) -> (r: Vec<ProcessRecord>)
    ensures
        r@ == spec_collect(outcomes@),
{
    let ghost all = outcomes@;
    let mut rest = outcomes;
    let mut out: Vec<ProcessRecord> = Vec::new();
    let ghost mut done: int = 0;
    proof {
        assert(all.take(0) =~= Seq::<Option<ProcessRecord>>::empty());
        assert(rest@ =~= all.skip(0));
    }
    while rest.len() > 0
        invariant
            0 <= done <= all.len(),
            rest@ == all.skip(done),
            out@ == spec_collect(all.take(done)),
        decreases rest@.len(),
    {
        let o = rest.remove(0);
        proof {
            assert(o == all[done]);
            assert(rest@ =~= all.skip(done + 1));
            assert(all.take(done + 1).drop_last() =~= all.take(done));
            assert(all.take(done + 1).last() == all[done]);
        }
        match o {
            Option::Some(rec) => {
                out.push(rec);
            },
            Option::None => {},
        }
        proof {
            done = done + 1;
        }
    }
    proof {
        assert(all.take(done) =~= all);
    }
    out
}

/// Whether the records stand in ascending order of usage.
pub open spec fn sorted_by_usage(s: Seq<ProcessRecord>) -> bool {
    forall|i: int, j: int| 0 <= i <= j < s.len() ==> s[i].usage <= s[j].usage
}

/// The exact sum of the records' usage values.
pub open spec fn sum_usage(s: Seq<ProcessRecord>) -> int
    decreases s.len(),
{
    if s.len() == 0 {
        0
    } else {
        sum_usage(s.drop_last()) + s.last().usage
    }
}

/// Taking one record out takes exactly its usage out of the sum.
proof fn lemma_sum_usage_remove(s: Seq<ProcessRecord>, i: int)
    requires
        0 <= i < s.len(),
    ensures
        sum_usage(s.remove(i)) == sum_usage(s) - s[i].usage,
    decreases s.len(),
{
    if i == s.len() - 1 {
        assert(s.remove(i) =~= s.drop_last());
    } else {
        assert(s.remove(i).drop_last() =~= s.drop_last().remove(i));
        assert(s.remove(i).last() == s.last());
        lemma_sum_usage_remove(s.drop_last(), i);
    }
}

/// The total is a property of the set of records alone: any two orders of
/// the same records have the same usage sum.
pub proof fn lemma_sum_usage_order_independent(a: Seq<ProcessRecord>, b: Seq<ProcessRecord>)
    requires
        a.to_multiset() == b.to_multiset(),
    ensures
        sum_usage(a) == sum_usage(b),
    decreases a.len(),
{
    if a.len() == 0 {
        assert(b.to_multiset().len() == 0);
    } else {
        let x = a.last();
        assert(a.contains(x));
        assert(b.to_multiset().count(x) > 0);
        assert(b.contains(x));
        let i = choose|i: int| 0 <= i < b.len() && b[i] == x;
        assert(a.remove(a.len() - 1) =~= a.drop_last());
        assert(a.drop_last().to_multiset() == a.to_multiset().remove(x));
        assert(b.remove(i).to_multiset() == b.to_multiset().remove(x));
        lemma_sum_usage_order_independent(a.drop_last(), b.remove(i));
        lemma_sum_usage_remove(b, i);
    }
}

/// Sums the records' usage values exactly, or reports that the total does
/// not fit the usage type.
#[verifier::loop_isolation(false)]
pub fn total_usage(records: &Vec<ProcessRecord>) -> (r: Option<i64>)
    ensures
        (r matches Option::Some(t) ==> t == sum_usage(records@)),
        (r is None <==> !(i64::MIN <= sum_usage(records@) <= i64::MAX)),
{
    let n = records.len();
    let mut acc: i128 = 0;
    let mut i: usize = 0;
    proof {
        assert(records@.take(0) =~= Seq::<ProcessRecord>::empty());
    }
    while i < n
        invariant
            0 <= i <= n,
            acc == sum_usage(records@.take(i as int)),
            -(i as int) * 0x8000_0000_0000_0000 <= acc <= (i as int) * 0x8000_0000_0000_0000,
        decreases n - i,
    {
        proof {
            assert(records@.take(i + 1).drop_last() =~= records@.take(i as int));
            assert(records@.take(i + 1).last() == records@[i as int]);
        }
        acc = acc + (records[i].usage as i128);
        i += 1;
    }
    proof {
        assert(records@.take(n as int) =~= records@);
    }
    if acc >= -9223372036854775808i128 && acc <= 9223372036854775807i128 {
        Option::Some(acc as i64)
    } else {
        Option::None
    }
}

/// Relies on rayon's `par_sort_unstable_by_key`: it sorts the slice by the
/// given key — here the usage field — and does nothing but reorder the
/// elements (an unstable sort: ties may land in any order).
#[verifier::external_body]
fn sort_by_usage(v: &mut Vec<ProcessRecord>)
    ensures
        final(v)@.to_multiset() == old(v)@.to_multiset(),
        sorted_by_usage(final(v)@),
{
    v.par_sort_unstable_by_key(|r: &ProcessRecord| r.usage)
}

/// The finished report: the retained records in ascending order of usage,
/// and the exact total of their usage values.
pub struct ScanResult {
    /// The records, sorted ascending by usage.
    pub records: Vec<ProcessRecord>,
    /// The sum of all records' usage values.
    pub total: i64,
}

impl ScanResult {
    /// The report's invariant: ordered records and an exact total.
    pub open spec fn wf(self) -> bool {
        sorted_by_usage(self.records@) && self.total == sum_usage(self.records@)
    }

    /// Orders the collected records ascending by usage and fixes the exact
    /// total, or reports that the total does not fit the usage type.
    pub fn new(records: Vec<ProcessRecord>) -> (r: Option<ScanResult>)
        ensures
            (r matches Option::Some(sr) ==> sr.wf() && sr.records@.to_multiset()
                == records@.to_multiset()),
            (r is None <==> !(i64::MIN <= sum_usage(records@) <= i64::MAX)),
    {
        let ghost input = records@;
        let mut recs = records;
        sort_by_usage(&mut recs);
        proof {
            lemma_sum_usage_order_independent(recs@, input);
        }
        match total_usage(&recs) {
            Option::Some(t) => Option::Some(ScanResult { records: recs, total: t }),
            Option::None => Option::None,
        }
    }
}

} // verus!
