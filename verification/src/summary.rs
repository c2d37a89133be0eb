//! Grouping of signals by category.
//!
//! `summarize_by_type` groups the signals by their category label,
//! accumulating a count and a severity sum per group, and returns the
//! groups ordered by count, largest first. The result equals
//! `summarize_spec`, a pure function of the input, and each returned
//! group's count and severity sum are exactly those of its category.

use vstd::prelude::*;

use crate::models::SignalRecord;
use crate::models::SignalTypeSummary;

verus! {

/// Largest possible severity magnitude (2^31).
pub const SEV_BOUND: i128 = 2147483648;

/// Index of the summary for category `t`, or -1 when there is none.
pub open spec fn type_idx(accs: Seq<SignalTypeSummary>, t: Seq<char>) -> int
    decreases accs.len(),
{
    if accs.len() == 0 {
        -1
    } else if accs[0].signal_type@ == t {
        0
    } else {
        let r = type_idx(accs.drop_first(), t);
        if r < 0 {
            -1
        } else {
            r + 1
        }
    }
}

pub open spec fn new_summary(sig: SignalRecord) -> SignalTypeSummary {
    SignalTypeSummary {
        signal_type: sig.signal_type,
        count: 1,
        severity_sum: sig.severity as i128,
    }
}

pub open spec fn add_to_summary(e: SignalTypeSummary, sig: SignalRecord) -> SignalTypeSummary {
    SignalTypeSummary {
        count: (e.count + 1) as usize,
        severity_sum: (e.severity_sum + sig.severity) as i128,
        ..e
    }
}

/// Folds one signal into the groups: updates the group with its category,
/// or appends a fresh one.
pub open spec fn type_upsert(
    accs: Seq<SignalTypeSummary>,
    sig: SignalRecord,
) -> Seq<SignalTypeSummary> {
    let i = type_idx(accs, sig.signal_type@);
    if i < 0 {
        accs.push(new_summary(sig))
    } else {
        accs.update(i, add_to_summary(accs[i], sig))
    }
}

/// The groups after folding every signal, in first-appearance order.
pub open spec fn group_signals(signals: Seq<SignalRecord>) -> Seq<SignalTypeSummary>
    decreases signals.len(),
{
    if signals.len() == 0 {
        Seq::empty()
    } else {
        type_upsert(group_signals(signals.drop_last()), signals.last())
    }
}

/// Number of signals whose category is `t`.
pub open spec fn group_count(signals: Seq<SignalRecord>, t: Seq<char>) -> int
    decreases signals.len(),
{
    if signals.len() == 0 {
        0
    } else {
        group_count(signals.drop_last(), t) + if signals.last().signal_type@ == t {
            1int
        } else {
            0int
        }
    }
}

/// Sum of the severities of the signals whose category is `t`.
pub open spec fn group_severity_sum(signals: Seq<SignalRecord>, t: Seq<char>) -> int
    decreases signals.len(),
{
    if signals.len() == 0 {
        0
    } else {
        group_severity_sum(signals.drop_last(), t) + if signals.last().signal_type@ == t {
            signals.last().severity as int
        } else {
            0int
        }
    }
}

/// A well-formed group: at least one signal, and a severity sum bounded by
/// the severity bound times the count.
pub open spec fn summary_wf(e: SignalTypeSummary) -> bool {
    &&& 1 <= e.count
    &&& -(e.count * SEV_BOUND) <= e.severity_sum <= e.count * SEV_BOUND
}

pub open spec fn summaries_wf(accs: Seq<SignalTypeSummary>) -> bool {
    forall|i: int| 0 <= i < accs.len() ==> summary_wf(#[trigger] accs[i])
}

/// No two groups share a category.
pub open spec fn distinct_types(accs: Seq<SignalTypeSummary>) -> bool {
    forall|i: int, j: int|
        0 <= i < j < accs.len() ==> (#[trigger] accs[i]).signal_type@ != (
        #[trigger] accs[j]).signal_type@
}

/// Sum of the counts across the groups.
pub open spec fn summary_count_sum(accs: Seq<SignalTypeSummary>) -> int
    decreases accs.len(),
{
    if accs.len() == 0 {
        0
    } else {
        summary_count_sum(accs.drop_last()) + accs.last().count
    }
}

proof fn lemma_summary_count_nonneg(accs: Seq<SignalTypeSummary>)
    ensures
        summary_count_sum(accs) >= 0,
    decreases accs.len(),
{
    if accs.len() > 0 {
        lemma_summary_count_nonneg(accs.drop_last());
    }
}

proof fn lemma_summary_count_le_sum(accs: Seq<SignalTypeSummary>, i: int)
    requires
        0 <= i < accs.len(),
    ensures
        accs[i].count <= summary_count_sum(accs),
    decreases accs.len(),
{
    if i == accs.len() - 1 {
        lemma_summary_count_nonneg(accs.drop_last());
    } else {
        lemma_summary_count_le_sum(accs.drop_last(), i);
    }
}

proof fn lemma_summary_count_update(accs: Seq<SignalTypeSummary>, i: int, e: SignalTypeSummary)
    requires
        0 <= i < accs.len(),
    ensures
        summary_count_sum(accs.update(i, e)) == summary_count_sum(accs) - accs[i].count + e.count,
    decreases accs.len(),
{
    let u = accs.update(i, e);
    if i == accs.len() - 1 {
        assert(u.drop_last() =~= accs.drop_last());
        assert(u.last() == e);
    } else {
        assert(u.drop_last() =~= accs.drop_last().update(i, e));
        assert(u.last() == accs.last());
        lemma_summary_count_update(accs.drop_last(), i, e);
    }
}

proof fn lemma_summary_count_push(accs: Seq<SignalTypeSummary>, e: SignalTypeSummary)
    ensures
        summary_count_sum(accs.push(e)) == summary_count_sum(accs) + e.count,
{
    assert(accs.push(e).drop_last() =~= accs);
    assert(accs.push(e).last() == e);
}

proof fn lemma_type_idx_in_range(accs: Seq<SignalTypeSummary>, t: Seq<char>)
    ensures
        -1 <= type_idx(accs, t) < accs.len(),
        type_idx(accs, t) >= 0 ==> accs[type_idx(accs, t)].signal_type@ == t,
    decreases accs.len(),
{
    if accs.len() > 0 && accs[0].signal_type@ != t {
        lemma_type_idx_in_range(accs.drop_first(), t);
    }
}

proof fn lemma_type_idx_at(accs: Seq<SignalTypeSummary>, t: Seq<char>, j: int)
    requires
        0 <= j < accs.len(),
        forall|k: int| 0 <= k < j ==> (#[trigger] accs[k]).signal_type@ != t,
        accs[j].signal_type@ == t,
    ensures
        type_idx(accs, t) == j,
    decreases j,
{
    if j > 0 {
        let rest = accs.drop_first();
        assert(forall|k: int| 0 <= k < j - 1 ==> (#[trigger] rest[k]).signal_type@ != t);
        lemma_type_idx_at(rest, t, j - 1);
    }
}

proof fn lemma_type_idx_none(accs: Seq<SignalTypeSummary>, t: Seq<char>)
    requires
        forall|k: int| 0 <= k < accs.len() ==> (#[trigger] accs[k]).signal_type@ != t,
    ensures
        type_idx(accs, t) == -1,
    decreases accs.len(),
{
    if accs.len() > 0 {
        let rest = accs.drop_first();
        assert(forall|k: int| 0 <= k < rest.len() ==> (#[trigger] rest[k]).signal_type@ != t);
        lemma_type_idx_none(rest, t);
    }
}

proof fn lemma_type_idx_neg(accs: Seq<SignalTypeSummary>, t: Seq<char>)
    requires
        type_idx(accs, t) == -1,
    ensures
        forall|k: int| 0 <= k < accs.len() ==> (#[trigger] accs[k]).signal_type@ != t,
    decreases accs.len(),
{
    if accs.len() > 0 {
        assert(accs[0].signal_type@ != t);
        lemma_type_idx_neg(accs.drop_first(), t);
        assert forall|k: int| 0 <= k < accs.len() implies (#[trigger] accs[k]).signal_type@ != t by {
            if k > 0 {
                assert(accs[k] == accs.drop_first()[k - 1]);
            }
        }
    }
}

proof fn lemma_type_idx_first(accs: Seq<SignalTypeSummary>, t: Seq<char>)
    requires
        type_idx(accs, t) >= 0,
    ensures
        forall|k: int| 0 <= k < type_idx(accs, t) ==> (#[trigger] accs[k]).signal_type@ != t,
    decreases accs.len(),
{
    lemma_type_idx_in_range(accs, t);
    if accs.len() > 0 && accs[0].signal_type@ != t {
        let rest = accs.drop_first();
        lemma_type_idx_first(rest, t);
        assert forall|k: int| 0 <= k < type_idx(accs, t) implies (#[trigger] accs[k]).signal_type@
            != t by {
            if k > 0 {
                assert(0 <= k - 1 < rest.len());
                assert(accs[k] == rest[k - 1]);
            }
        }
    }
}

proof fn lemma_group_count_nonneg(signals: Seq<SignalRecord>, t: Seq<char>)
    ensures
        group_count(signals, t) >= 0,
    decreases signals.len(),
{
    if signals.len() > 0 {
        lemma_group_count_nonneg(signals.drop_last(), t);
    }
}

/// A category with no signal has severity sum zero.
proof fn lemma_group_sum_zero(signals: Seq<SignalRecord>, t: Seq<char>)
    requires
        group_count(signals, t) == 0,
    ensures
        group_severity_sum(signals, t) == 0,
    decreases signals.len(),
{
    if signals.len() > 0 {
        lemma_group_count_nonneg(signals.drop_last(), t);
        lemma_group_sum_zero(signals.drop_last(), t);
    }
}

/// The grouping invariant: groups are well formed, categories are distinct,
/// counts sum to the number of signals, every category present has a group,
/// and each group carries exactly its category's count and severity sum.
pub proof fn lemma_group_signals_correct(signals: Seq<SignalRecord>)
    requires
        signals.len() <= usize::MAX,
    ensures
        summaries_wf(group_signals(signals)),
        distinct_types(group_signals(signals)),
        summary_count_sum(group_signals(signals)) == signals.len(),
        forall|t: Seq<char>|
            #[trigger] group_count(signals, t) != 0 ==> type_idx(group_signals(signals), t) >= 0,
        forall|k: int|
            0 <= k < group_signals(signals).len() ==> (#[trigger] group_signals(signals)[k]).count
                == group_count(signals, group_signals(signals)[k].signal_type@)
                && group_signals(signals)[k].severity_sum == group_severity_sum(
                signals,
                group_signals(signals)[k].signal_type@,
            ),
    decreases signals.len(),
{
    if signals.len() > 0 {
        let prefix = signals.drop_last();
        let sig = signals.last();
        let t0 = sig.signal_type@;
        lemma_group_signals_correct(prefix);
        let g = group_signals(prefix);
        let g1 = group_signals(signals);
        let i = type_idx(g, t0);
        lemma_type_idx_in_range(g, t0);
        if i < 0 {
            lemma_type_idx_neg(g, t0);
            let e = new_summary(sig);
            assert(g1 == g.push(e));
            lemma_summary_count_push(g, e);
            // a category with no group so far has no signal so far
            assert(group_count(prefix, t0) == 0);
            lemma_group_sum_zero(prefix, t0);
            assert(summary_wf(e));
            assert(forall|k: int| 0 <= k < g1.len() ==> summary_wf(#[trigger] g1[k]));
            assert forall|k: int| 0 <= k < g1.len() implies (#[trigger] g1[k]).count
                == group_count(signals, g1[k].signal_type@) && g1[k].severity_sum
                == group_severity_sum(signals, g1[k].signal_type@) by {
                if k < g.len() {
                    assert(g1[k] == g[k]);
                    assert(g[k].signal_type@ != t0);
                } else {
                    assert(g1[k] == e);
                }
            }
            assert forall|t: Seq<char>| #[trigger] group_count(signals, t) != 0 implies type_idx(
                g1,
                t,
            ) >= 0 by {
                if group_count(prefix, t) != 0 {
                    let j = type_idx(g, t);
                    lemma_type_idx_in_range(g, t);
                    lemma_type_idx_first(g, t);
                    assert(forall|k: int| 0 <= k < j ==> (#[trigger] g1[k]).signal_type@ != t);
                    assert(g1[j].signal_type@ == t);
                    lemma_type_idx_at(g1, t, j);
                } else {
                    assert(t == t0);
                    assert(g1[g.len() as int].signal_type@ == t0);
                    assert(forall|k: int|
                        0 <= k < g.len() ==> (#[trigger] g1[k]).signal_type@ != t0);
                    lemma_type_idx_at(g1, t0, g.len() as int);
                }
            }
        } else {
            let e = add_to_summary(g[i], sig);
            assert(g1 == g.update(i, e));
            lemma_summary_count_le_sum(g, i);
            lemma_summary_count_update(g, i, e);
            lemma_type_idx_first(g, t0);
            assert(summary_wf(e));
            assert(forall|k: int| 0 <= k < g1.len() ==> summary_wf(#[trigger] g1[k]));
            assert forall|k: int| 0 <= k < g1.len() implies (#[trigger] g1[k]).count
                == group_count(signals, g1[k].signal_type@) && g1[k].severity_sum
                == group_severity_sum(signals, g1[k].signal_type@) by {
                if k == i {
                    assert(g1[k] == e);
                    assert(g[i].signal_type@ == t0);
                } else {
                    assert(g1[k] == g[k]);
                    assert(g[k].signal_type@ != t0);
                }
            }
            assert forall|t: Seq<char>| #[trigger] group_count(signals, t) != 0 implies type_idx(
                g1,
                t,
            ) >= 0 by {
                if group_count(prefix, t) != 0 {
                    let j = type_idx(g, t);
                    lemma_type_idx_in_range(g, t);
                    lemma_type_idx_first(g, t);
                    assert forall|k: int| 0 <= k < j implies (#[trigger] g1[k]).signal_type@
                        != t by {
                        assert(g1[k].signal_type@ == g[k].signal_type@);
                    }
                    assert(g1[j].signal_type@ == g[j].signal_type@);
                    lemma_type_idx_at(g1, t, j);
                } else {
                    assert(t == t0);
                    assert(g1[i].signal_type@ == t0);
                    assert forall|k: int| 0 <= k < i implies (#[trigger] g1[k]).signal_type@
                        != t0 by {
                        assert(g1[k].signal_type@ == g[k].signal_type@);
                    }
                    lemma_type_idx_at(g1, t0, i);
                }
            }
        }
    }
}

/// Stable insertion of `x` into a sequence ordered by count descending:
/// `x` goes after every group whose count is at least its own.
pub open spec fn insert_by_count(
    x: SignalTypeSummary,
    s: Seq<SignalTypeSummary>,
) -> Seq<SignalTypeSummary>
    decreases s.len(),
{
    if s.len() == 0 {
        seq![x]
    } else if s[0].count < x.count {
        seq![x] + s
    } else {
        seq![s[0]] + insert_by_count(x, s.drop_first())
    }
}

/// Insertion sort by count descending, stable across equal counts.
pub open spec fn sort_by_count(s: Seq<SignalTypeSummary>) -> Seq<SignalTypeSummary>
    decreases s.len(),
{
    if s.len() == 0 {
        Seq::empty()
    } else {
        insert_by_count(s.last(), sort_by_count(s.drop_last()))
    }
}

/// Ordered by count descending.
pub open spec fn sorted_by_count(s: Seq<SignalTypeSummary>) -> bool {
    forall|i: int, j: int|
        0 <= i <= j < s.len() ==> (#[trigger] s[i]).count >= (#[trigger] s[j]).count
}

/// What `summarize_by_type` returns: the groups, ordered by count
/// descending.
pub open spec fn summarize_spec(signals: Seq<SignalRecord>) -> Seq<SignalTypeSummary> {
    sort_by_count(group_signals(signals))
}

proof fn lemma_insert_by_count_at(x: SignalTypeSummary, s: Seq<SignalTypeSummary>, j: int)
    requires
        0 <= j <= s.len(),
        forall|k: int| 0 <= k < j ==> (#[trigger] s[k]).count >= x.count,
        j < s.len() ==> s[j].count < x.count,
    ensures
        insert_by_count(x, s) == s.insert(j, x),
    decreases s.len(),
{
    if s.len() == 0 {
        assert(s.insert(0, x) =~= seq![x]);
    } else if j == 0 {
        assert(s.insert(0, x) =~= seq![x] + s);
    } else {
        let rest = s.drop_first();
        assert(forall|k: int| 0 <= k < j - 1 ==> (#[trigger] rest[k]).count >= x.count);
        lemma_insert_by_count_at(x, rest, j - 1);
        assert(s.insert(j, x) =~= seq![s[0]] + rest.insert(j - 1, x));
    }
}

/// Every element of an insertion's result is the inserted one or one of
/// the sequence, so a property of all of them is preserved.
proof fn lemma_insert_by_count_all(
    p: spec_fn(SignalTypeSummary) -> bool,
    x: SignalTypeSummary,
    s: Seq<SignalTypeSummary>,
)
    requires
        p(x),
        forall|i: int| 0 <= i < s.len() ==> p(#[trigger] s[i]),
    ensures
        forall|i: int|
            0 <= i < insert_by_count(x, s).len() ==> p(#[trigger] insert_by_count(x, s)[i]),
    decreases s.len(),
{
    let r = insert_by_count(x, s);
    if s.len() == 0 {
        assert(r == seq![x]);
        assert(forall|i: int| 0 <= i < r.len() ==> p(#[trigger] r[i]));
    } else if s[0].count < x.count {
        assert(r == seq![x] + s);
        assert forall|i: int| 0 <= i < r.len() implies p(#[trigger] r[i]) by {
            if i > 0 {
                assert(r[i] == s[i - 1]);
            }
        }
    } else {
        let rest = s.drop_first();
        assert(forall|i: int| 0 <= i < rest.len() ==> p(#[trigger] rest[i]));
        lemma_insert_by_count_all(p, x, rest);
        let ins = insert_by_count(x, rest);
        assert(r == seq![s[0]] + ins);
        assert forall|i: int| 0 <= i < r.len() implies p(#[trigger] r[i]) by {
            if i > 0 {
                assert(r[i] == ins[i - 1]);
            }
        }
    }
}

/// Sorting preserves a property that holds of every element.
proof fn lemma_sort_by_count_all(p: spec_fn(SignalTypeSummary) -> bool, s: Seq<SignalTypeSummary>)
    requires
        forall|i: int| 0 <= i < s.len() ==> p(#[trigger] s[i]),
    ensures
        forall|i: int| 0 <= i < sort_by_count(s).len() ==> p(#[trigger] sort_by_count(s)[i]),
    decreases s.len(),
{
    if s.len() > 0 {
        assert(forall|i: int| 0 <= i < s.drop_last().len() ==> p(#[trigger] s.drop_last()[i]));
        lemma_sort_by_count_all(p, s.drop_last());
        lemma_insert_by_count_all(p, s.last(), sort_by_count(s.drop_last()));
    }
}

proof fn lemma_insert_by_count_sorted(x: SignalTypeSummary, s: Seq<SignalTypeSummary>)
    requires
        sorted_by_count(s),
    ensures
        sorted_by_count(insert_by_count(x, s)),
    decreases s.len(),
{
    let r = insert_by_count(x, s);
    if s.len() == 0 {
        assert(sorted_by_count(r));
    } else if s[0].count < x.count {
        assert(r == seq![x] + s);
        assert forall|i: int, j: int| 0 <= i <= j < r.len() implies (#[trigger] r[i]).count >= (
        #[trigger] r[j]).count by {
            if i == 0 {
                if j > 0 {
                    assert(r[j] == s[j - 1]);
                    assert(s[0].count >= s[j - 1].count);
                }
            } else {
                assert(r[i] == s[i - 1]);
                assert(r[j] == s[j - 1]);
            }
        }
    } else {
        let rest = s.drop_first();
        assert(sorted_by_count(rest));
        lemma_insert_by_count_sorted(x, rest);
        assert(forall|i: int| 0 <= i < rest.len() ==> (#[trigger] rest[i]).count <= s[0].count);
        let b: usize = s[0].count;
        lemma_insert_by_count_all(|e: SignalTypeSummary| e.count <= b, x, rest);
        let ins = insert_by_count(x, rest);
        assert(forall|i: int| 0 <= i < ins.len() ==> (#[trigger] ins[i]).count <= b);
        assert(r == seq![s[0]] + ins);
        assert forall|i: int, j: int| 0 <= i <= j < r.len() implies (#[trigger] r[i]).count >= (
        #[trigger] r[j]).count by {
            if i == 0 {
                if j > 0 {
                    assert(r[j] == ins[j - 1]);
                }
            } else {
                assert(r[i] == ins[i - 1]);
                assert(r[j] == ins[j - 1]);
            }
        }
    }
}

proof fn lemma_sort_by_count_sorted(s: Seq<SignalTypeSummary>)
    ensures
        sorted_by_count(sort_by_count(s)),
    decreases s.len(),
{
    if s.len() > 0 {
        lemma_sort_by_count_sorted(s.drop_last());
        lemma_insert_by_count_sorted(s.last(), sort_by_count(s.drop_last()));
    }
}

proof fn lemma_summary_sum_prepend(x: SignalTypeSummary, s: Seq<SignalTypeSummary>)
    ensures
        summary_count_sum(seq![x] + s) == x.count + summary_count_sum(s),
    decreases s.len(),
{
    let c = seq![x] + s;
    if s.len() == 0 {
        assert(c =~= seq![x]);
        assert(c.drop_last() =~= Seq::<SignalTypeSummary>::empty());
        assert(summary_count_sum(c) == summary_count_sum(c.drop_last()) + c.last().count);
    } else {
        lemma_summary_sum_prepend(x, s.drop_last());
        assert(c.drop_last() =~= seq![x] + s.drop_last());
        assert(c.last() == s.last());
        assert(summary_count_sum(c) == summary_count_sum(c.drop_last()) + c.last().count);
        assert(summary_count_sum(s) == summary_count_sum(s.drop_last()) + s.last().count);
    }
}

proof fn lemma_summary_sum_insert(x: SignalTypeSummary, s: Seq<SignalTypeSummary>)
    ensures
        summary_count_sum(insert_by_count(x, s)) == summary_count_sum(s) + x.count,
    decreases s.len(),
{
    if s.len() == 0 {
        assert(seq![x].drop_last() =~= Seq::<SignalTypeSummary>::empty());
        assert(summary_count_sum(seq![x]) == summary_count_sum(seq![x].drop_last())
            + seq![x].last().count);
    } else if s[0].count < x.count {
        lemma_summary_sum_prepend(x, s);
    } else {
        lemma_summary_sum_insert(x, s.drop_first());
        lemma_summary_sum_prepend(s[0], insert_by_count(x, s.drop_first()));
        lemma_summary_sum_prepend(s[0], s.drop_first());
        assert(seq![s[0]] + s.drop_first() =~= s);
    }
}

proof fn lemma_summary_sum_sort(s: Seq<SignalTypeSummary>)
    ensures
        summary_count_sum(sort_by_count(s)) == summary_count_sum(s),
    decreases s.len(),
{
    if s.len() > 0 {
        lemma_summary_sum_sort(s.drop_last());
        lemma_summary_sum_insert(s.last(), sort_by_count(s.drop_last()));
    }
}

/// Folds one signal into the group vector.
fn type_upsert_exec(accs: &mut Vec<SignalTypeSummary>, sig: &SignalRecord)
    requires
        summaries_wf(old(accs)@),
        summary_count_sum(old(accs)@) < usize::MAX,
    ensures
        final(accs)@ == type_upsert(old(accs)@, *sig),
{
    let mut j: usize = 0;
    while j < accs.len() && !(accs[j].signal_type == sig.signal_type)
        invariant
            j <= accs@.len(),
            accs@ == old(accs)@,
            forall|k: int| 0 <= k < j ==> (#[trigger] accs@[k]).signal_type@ != sig.signal_type@,
        decreases accs@.len() - j,
    {
        j = j + 1;
    }
    if j < accs.len() {
        proof {
            lemma_type_idx_at(accs@, sig.signal_type@, j as int);
            lemma_summary_count_le_sum(accs@, j as int);
            lemma_summary_count_nonneg(accs@);
        }
        let entry = accs.remove(j);
        let updated = SignalTypeSummary {
            signal_type: entry.signal_type,
            count: entry.count + 1,
            severity_sum: entry.severity_sum + sig.severity as i128,
        };
        let ghost updated_g = updated;
        accs.insert(j, updated);
        proof {
            assert(accs@ =~= old(accs)@.update(j as int, updated_g));
        }
    } else {
        proof {
            lemma_type_idx_none(accs@, sig.signal_type@);
        }
        accs.push(
            SignalTypeSummary {
                signal_type: sig.signal_type.clone(),
                count: 1,
                severity_sum: sig.severity as i128,
            },
        );
    }
}

/// Inserts `x` into `res`, kept ordered by count descending, after every
/// group whose count is at least its own.
fn insert_summary_sorted(res: &mut Vec<SignalTypeSummary>, x: SignalTypeSummary)
    ensures
        final(res)@ == insert_by_count(x, old(res)@),
{
    let mut j: usize = 0;
    while j < res.len() && res[j].count >= x.count
        invariant
            j <= res@.len(),
            res@ == old(res)@,
            forall|k: int| 0 <= k < j ==> (#[trigger] res@[k]).count >= x.count,
        decreases res@.len() - j,
    {
        j = j + 1;
    }
    proof {
        lemma_insert_by_count_at(x, res@, j as int);
    }
    res.insert(j, x);
}

/// Groups the signals by category, accumulating a count and a severity sum
/// per group, and returns the groups ordered by count descending: exactly
/// `summarize_spec` of the input. Each group's count and severity sum are
/// those of its category, categories are distinct, and the counts sum to
/// the number of signals.
pub fn summarize_by_type(signals: &Vec<SignalRecord>) -> (res: Vec<SignalTypeSummary>)
    ensures
        res@ == summarize_spec(signals@),
        sorted_by_count(res@),
        summary_count_sum(res@) == signals@.len(),
        forall|k: int| 0 <= k < res@.len() ==> summary_wf(#[trigger] res@[k]),
        forall|k: int|
            0 <= k < res@.len() ==> (#[trigger] res@[k]).count == group_count(
                signals@,
                res@[k].signal_type@,
            ) && res@[k].severity_sum == group_severity_sum(signals@, res@[k].signal_type@),
{
    let mut accs: Vec<SignalTypeSummary> = Vec::new();
    let mut i: usize = 0;
    proof {
        assert(signals@.take(0) =~= Seq::<SignalRecord>::empty());
    }
    while i < signals.len()
        invariant
            i <= signals@.len(),
            accs@ == group_signals(signals@.take(i as int)),
        decreases signals@.len() - i,
    {
        proof {
            lemma_group_signals_correct(signals@.take(i as int));
        }
        type_upsert_exec(&mut accs, &signals[i]);
        proof {
            assert(signals@.take(i as int + 1).drop_last() =~= signals@.take(i as int));
            assert(signals@.take(i as int + 1).last() == signals@[i as int]);
        }
        i = i + 1;
    }
    proof {
        assert(signals@.take(signals@.len() as int) =~= signals@);
    }
    let mut res: Vec<SignalTypeSummary> = Vec::new();
    let ghost accs0 = accs@;
    let ghost mut taken: int = 0;
    proof {
        assert(accs0.take(0) =~= Seq::<SignalTypeSummary>::empty());
        assert(sort_by_count(accs0.take(0)) =~= Seq::<SignalTypeSummary>::empty());
        assert(accs0.skip(0) =~= accs0);
    }
    while accs.len() > 0
        invariant
            0 <= taken <= accs0.len(),
            accs@ == accs0.skip(taken),
            res@ == sort_by_count(accs0.take(taken)),
        decreases accs@.len(),
    {
        let e = accs.remove(0);
        proof {
            assert(accs0.skip(taken).remove(0) =~= accs0.skip(taken + 1));
            assert(e == accs0[taken]);
            assert(accs0.take(taken + 1).drop_last() =~= accs0.take(taken));
            assert(accs0.take(taken + 1).last() == accs0[taken]);
        }
        insert_summary_sorted(&mut res, e);
        proof {
            taken = taken + 1;
        }
    }
    proof {
        assert(taken == accs0.len());
        assert(accs0.take(taken) =~= accs0);
        lemma_sort_by_count_sorted(accs0);
        lemma_group_signals_correct(signals@);
        lemma_summary_sum_sort(accs0);
        lemma_sort_by_count_all(|e: SignalTypeSummary| summary_wf(e), accs0);
        lemma_sort_by_count_all(
            |e: SignalTypeSummary|
                e.count == group_count(signals@, e.signal_type@) && e.severity_sum
                    == group_severity_sum(signals@, e.signal_type@),
            accs0,
        );
    }
    res
}

} // verus!
