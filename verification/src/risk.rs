//! Per-person risk scoring with time-decayed severity.
//!
//! `score_signals` folds the signals that fall inside the cutoff window
//! into one accumulator per scholar and returns them ordered by score,
//! highest first. The whole pipeline is specified exactly: the result
//! equals `score_spec`, a pure function of the inputs.

use vstd::prelude::*;

use crate::date::Date;
use crate::models::ScholarScore;
use crate::models::SignalRecord;

verus! {

/// Largest possible magnitude of one signal's contribution in tenths:
/// the largest severity magnitude (2^31) times the largest weight (10).
pub const CONTRIB_BOUND: i128 = 21474836480;

/// The recency weight, in tenths, for a signal `days_ago` days old.
/// Closed tiers, first match wins; negative ages take the freshest tier.
pub open spec fn weight_tenths(days_ago: int) -> int {
    if days_ago <= 7 {
        10
    } else if days_ago <= 30 {
        7
    } else if days_ago <= 60 {
        4
    } else {
        2
    }
}

/// The decay multiplier applied to a signal's severity, in tenths
/// (10 stands for 1.0, 7 for 0.7, 4 for 0.4, 2 for 0.2).
pub fn recency_weight(days_ago: i64) -> (w: i64)
    ensures
        w == weight_tenths(days_ago as int),
{
    if days_ago <= 7 {
        10
    } else if days_ago <= 30 {
        7
    } else if days_ago <= 60 {
        4
    } else {
        2
    }
}

/// The weight tiers: ages up to a week count in full, up to a month at
/// seven tenths, up to two months at four tenths, anything older at two
/// tenths; a negative age takes the freshest tier.
pub proof fn lemma_weight_tiers(days_ago: int)
    ensures
        days_ago <= 7 ==> weight_tenths(days_ago) == 10,
        8 <= days_ago <= 30 ==> weight_tenths(days_ago) == 7,
        31 <= days_ago <= 60 ==> weight_tenths(days_ago) == 4,
        61 <= days_ago ==> weight_tenths(days_ago) == 2,
{
}

/// The scoring window in days: `since_days` clamped to a minimum of 1.
pub open spec fn clamped_window(since_days: int) -> int {
    if since_days < 1 {
        1
    } else {
        since_days
    }
}

/// Day number of the earliest occurrence date still counted.
pub open spec fn cutoff_num(since_days: int, today: Date) -> int {
    today.day_num() - clamped_window(since_days)
}

/// Whether a signal falls inside the scoring window: occurrences strictly
/// before the cutoff are excluded, one exactly at the cutoff is included.
pub open spec fn included(sig: SignalRecord, since_days: int, today: Date) -> bool {
    sig.occurred_at.day_num() >= cutoff_num(since_days, today)
}

/// The earliest occurrence date still counted: `today` minus the clamped
/// window.
pub fn cutoff_date(since_days: i64, today: Date) -> (d: Date)
    requires
        today.valid(),
        clamped_window(since_days as int) <= today.day_num(),
    ensures
        d.valid(),
        d.day_num() == cutoff_num(since_days as int, today),
{
    let w: i64 = if since_days < 1 {
        1
    } else {
        since_days
    };
    today.minus_days(w)
}

/// One signal's score contribution in tenths: severity times the recency
/// weight of its age relative to `today`.
pub open spec fn contribution(sig: SignalRecord, today: Date) -> int {
    sig.severity * weight_tenths(today.day_num() - sig.occurred_at.day_num())
}

proof fn lemma_contribution_bound(sig: SignalRecord, today: Date)
    ensures
        -CONTRIB_BOUND <= contribution(sig, today) <= CONTRIB_BOUND,
{
    let w = weight_tenths(today.day_num() - sig.occurred_at.day_num());
    assert(2 <= w <= 10);
    assert(-CONTRIB_BOUND <= sig.severity * w <= CONTRIB_BOUND) by (nonlinear_arith)
        requires
            -2147483648 <= sig.severity <= 2147483647,
            2 <= w <= 10,
    ;
}

/// The accumulator seeded by the first signal seen for a scholar.
pub open spec fn new_score(sig: SignalRecord, today: Date) -> ScholarScore {
    ScholarScore {
        scholar_name: sig.scholar_name,
        scholar_email: sig.scholar_email,
        cohort: sig.cohort,
        score_tenths: contribution(sig, today) as i128,
        signal_count: 1,
    }
}

/// The accumulator after one more signal for its scholar.
pub open spec fn add_signal(sc: ScholarScore, sig: SignalRecord, today: Date) -> ScholarScore {
    ScholarScore {
        score_tenths: (sc.score_tenths + contribution(sig, today)) as i128,
        signal_count: (sc.signal_count + 1) as usize,
        ..sc
    }
}

/// Index of the accumulator keyed by `id`, or -1 when there is none.
pub open spec fn find_idx(accs: Seq<(u128, ScholarScore)>, id: u128) -> int
    decreases accs.len(),
{
    if accs.len() == 0 {
        -1
    } else if accs[0].0 == id {
        0
    } else {
        let r = find_idx(accs.drop_first(), id);
        if r < 0 {
            -1
        } else {
            r + 1
        }
    }
}

/// Folds one retained signal into the accumulators: updates the entry
/// keyed by its scholar, or appends a fresh one.
pub open spec fn upsert(
    accs: Seq<(u128, ScholarScore)>,
    sig: SignalRecord,
    today: Date,
) -> Seq<(u128, ScholarScore)> {
    let i = find_idx(accs, sig.scholar_id);
    if i < 0 {
        accs.push((sig.scholar_id, new_score(sig, today)))
    } else {
        accs.update(i, (sig.scholar_id, add_signal(accs[i].1, sig, today)))
    }
}

/// The accumulators after folding every retained signal, in order.
pub open spec fn accumulate(
    signals: Seq<SignalRecord>,
    since_days: int,
    today: Date,
) -> Seq<(u128, ScholarScore)>
    decreases signals.len(),
{
    if signals.len() == 0 {
        Seq::empty()
    } else {
        let prev = accumulate(signals.drop_last(), since_days, today);
        if included(signals.last(), since_days, today) {
            upsert(prev, signals.last(), today)
        } else {
            prev
        }
    }
}

/// Number of signals inside the scoring window.
pub open spec fn included_count(signals: Seq<SignalRecord>, since_days: int, today: Date) -> int
    decreases signals.len(),
{
    if signals.len() == 0 {
        0
    } else {
        included_count(signals.drop_last(), since_days, today) + if included(
            signals.last(),
            since_days,
            today,
        ) {
            1int
        } else {
            0int
        }
    }
}

/// A well-formed accumulator: at least one contributing signal, and a score
/// bounded by the contribution bound times the count.
pub open spec fn acc_wf(e: (u128, ScholarScore)) -> bool {
    &&& 1 <= e.1.signal_count
    &&& -(e.1.signal_count * CONTRIB_BOUND) <= e.1.score_tenths <= e.1.signal_count
        * CONTRIB_BOUND
}

/// A returned score entry: at least one contributing signal, and a score
/// bounded by the contribution bound times the count.
pub open spec fn score_wf(e: ScholarScore) -> bool {
    &&& 1 <= e.signal_count
    &&& -(e.signal_count * CONTRIB_BOUND) <= e.score_tenths <= e.signal_count * CONTRIB_BOUND
}

pub open spec fn accs_wf(accs: Seq<(u128, ScholarScore)>) -> bool {
    forall|i: int| 0 <= i < accs.len() ==> acc_wf(#[trigger] accs[i])
}

/// Sum of the signal counts across the accumulators.
pub open spec fn count_total(accs: Seq<(u128, ScholarScore)>) -> int
    decreases accs.len(),
{
    if accs.len() == 0 {
        0
    } else {
        count_total(accs.drop_last()) + accs.last().1.signal_count
    }
}

proof fn lemma_count_total_nonneg(accs: Seq<(u128, ScholarScore)>)
    ensures
        count_total(accs) >= 0,
    decreases accs.len(),
{
    if accs.len() > 0 {
        lemma_count_total_nonneg(accs.drop_last());
    }
}

proof fn lemma_count_le_total(accs: Seq<(u128, ScholarScore)>, i: int)
    requires
        0 <= i < accs.len(),
    ensures
        accs[i].1.signal_count <= count_total(accs),
    decreases accs.len(),
{
    if i == accs.len() - 1 {
        lemma_count_total_nonneg(accs.drop_last());
    } else {
        lemma_count_le_total(accs.drop_last(), i);
    }
}

proof fn lemma_count_total_update(accs: Seq<(u128, ScholarScore)>, i: int, e: (u128, ScholarScore))
    requires
        0 <= i < accs.len(),
    ensures
        count_total(accs.update(i, e)) == count_total(accs) - accs[i].1.signal_count
            + e.1.signal_count,
    decreases accs.len(),
{
    let u = accs.update(i, e);
    if i == accs.len() - 1 {
        assert(u.drop_last() =~= accs.drop_last());
        assert(u.last() == e);
    } else {
        assert(u.drop_last() =~= accs.drop_last().update(i, e));
        assert(u.last() == accs.last());
        lemma_count_total_update(accs.drop_last(), i, e);
    }
}

proof fn lemma_count_total_push(accs: Seq<(u128, ScholarScore)>, e: (u128, ScholarScore))
    ensures
        count_total(accs.push(e)) == count_total(accs) + e.1.signal_count,
{
    assert(accs.push(e).drop_last() =~= accs);
    assert(accs.push(e).last() == e);
}

/// Folding one signal preserves well-formedness and grows the total count
/// by exactly one.
proof fn lemma_upsert_wf(accs: Seq<(u128, ScholarScore)>, sig: SignalRecord, today: Date)
    requires
        accs_wf(accs),
        count_total(accs) < usize::MAX,
    ensures
        accs_wf(upsert(accs, sig, today)),
        count_total(upsert(accs, sig, today)) == count_total(accs) + 1,
{
    lemma_contribution_bound(sig, today);
    let i = find_idx(accs, sig.scholar_id);
    if i < 0 {
        lemma_find_idx_in_range(accs, sig.scholar_id);
        lemma_count_total_push(accs, (sig.scholar_id, new_score(sig, today)));
    } else {
        lemma_find_idx_in_range(accs, sig.scholar_id);
        lemma_count_le_total(accs, i);
        lemma_count_total_nonneg(accs);
        let old_e = accs[i];
        let new_e = (sig.scholar_id, add_signal(old_e.1, sig, today));
        assert(old_e.1.signal_count < usize::MAX);
        assert(acc_wf(new_e));
        lemma_count_total_update(accs, i, new_e);
    }
}

proof fn lemma_find_idx_in_range(accs: Seq<(u128, ScholarScore)>, id: u128)
    ensures
        -1 <= find_idx(accs, id) < accs.len(),
        find_idx(accs, id) >= 0 ==> accs[find_idx(accs, id)].0 == id,
    decreases accs.len(),
{
    if accs.len() > 0 && accs[0].0 != id {
        lemma_find_idx_in_range(accs.drop_first(), id);
    }
}

proof fn lemma_find_idx_at(accs: Seq<(u128, ScholarScore)>, id: u128, j: int)
    requires
        0 <= j < accs.len(),
        forall|k: int| 0 <= k < j ==> (#[trigger] accs[k]).0 != id,
        accs[j].0 == id,
    ensures
        find_idx(accs, id) == j,
    decreases j,
{
    if j > 0 {
        let rest = accs.drop_first();
        assert(forall|k: int| 0 <= k < j - 1 ==> (#[trigger] rest[k]).0 != id);
        lemma_find_idx_at(rest, id, j - 1);
    }
}

proof fn lemma_find_idx_none(accs: Seq<(u128, ScholarScore)>, id: u128)
    requires
        forall|k: int| 0 <= k < accs.len() ==> (#[trigger] accs[k]).0 != id,
    ensures
        find_idx(accs, id) == -1,
    decreases accs.len(),
{
    if accs.len() > 0 {
        let rest = accs.drop_first();
        assert(forall|k: int| 0 <= k < rest.len() ==> (#[trigger] rest[k]).0 != id);
        lemma_find_idx_none(rest, id);
    }
}

/// The accumulators of any prefix are well formed, and their counts sum to
/// the number of retained signals, which is at most the number of signals.
pub proof fn lemma_accumulate_wf(signals: Seq<SignalRecord>, since_days: int, today: Date)
    requires
        signals.len() <= usize::MAX,
    ensures
        accs_wf(accumulate(signals, since_days, today)),
        count_total(accumulate(signals, since_days, today)) == included_count(
            signals,
            since_days,
            today,
        ),
        0 <= included_count(signals, since_days, today) <= signals.len(),
    decreases signals.len(),
{
    if signals.len() > 0 {
        lemma_accumulate_wf(signals.drop_last(), since_days, today);
        if included(signals.last(), since_days, today) {
            lemma_upsert_wf(accumulate(signals.drop_last(), since_days, today), signals.last(), today);
        }
    }
}

/// Number of retained signals that belong to scholar `id`.
pub open spec fn person_count(signals: Seq<SignalRecord>, since_days: int, today: Date, id: u128) -> int
    decreases signals.len(),
{
    if signals.len() == 0 {
        0
    } else {
        person_count(signals.drop_last(), since_days, today, id) + if included(
            signals.last(),
            since_days,
            today,
        ) && signals.last().scholar_id == id {
            1int
        } else {
            0int
        }
    }
}

/// Sum of the decayed contributions of the retained signals that belong to
/// scholar `id`.
pub open spec fn person_score(signals: Seq<SignalRecord>, since_days: int, today: Date, id: u128) -> int
    decreases signals.len(),
{
    if signals.len() == 0 {
        0
    } else {
        person_score(signals.drop_last(), since_days, today, id) + if included(
            signals.last(),
            since_days,
            today,
        ) && signals.last().scholar_id == id {
            contribution(signals.last(), today)
        } else {
            0int
        }
    }
}

/// No two accumulators share a scholar.
pub open spec fn distinct_ids(accs: Seq<(u128, ScholarScore)>) -> bool {
    forall|i: int, j: int| 0 <= i < j < accs.len() ==> (#[trigger] accs[i]).0 != (#[trigger] accs[j]).0
}

proof fn lemma_person_count_nonneg(signals: Seq<SignalRecord>, since_days: int, today: Date, id: u128)
    ensures
        person_count(signals, since_days, today, id) >= 0,
    decreases signals.len(),
{
    if signals.len() > 0 {
        lemma_person_count_nonneg(signals.drop_last(), since_days, today, id);
    }
}

/// A scholar with no retained signal has score sum zero.
proof fn lemma_person_score_zero(signals: Seq<SignalRecord>, since_days: int, today: Date, id: u128)
    requires
        person_count(signals, since_days, today, id) == 0,
    ensures
        person_score(signals, since_days, today, id) == 0,
    decreases signals.len(),
{
    if signals.len() > 0 {
        lemma_person_count_nonneg(signals.drop_last(), since_days, today, id);
        lemma_person_score_zero(signals.drop_last(), since_days, today, id);
    }
}

proof fn lemma_find_idx_first(accs: Seq<(u128, ScholarScore)>, id: u128)
    requires
        find_idx(accs, id) >= 0,
    ensures
        forall|k: int| 0 <= k < find_idx(accs, id) ==> (#[trigger] accs[k]).0 != id,
    decreases accs.len(),
{
    lemma_find_idx_in_range(accs, id);
    if accs.len() > 0 && accs[0].0 != id {
        let rest = accs.drop_first();
        lemma_find_idx_first(rest, id);
        assert forall|k: int| 0 <= k < find_idx(accs, id) implies (#[trigger] accs[k]).0 != id by {
            if k > 0 {
                assert(0 <= k - 1 < rest.len());
                assert(accs[k] == rest[k - 1]);
            }
        }
    }
}

/// The accumulators hold exactly one entry per scholar with a retained
/// signal, and each entry carries exactly its scholar's retained count and
/// decayed severity sum.
pub proof fn lemma_accumulate_per_scholar(signals: Seq<SignalRecord>, since_days: int, today: Date)
    requires
        signals.len() <= usize::MAX,
    ensures
        distinct_ids(accumulate(signals, since_days, today)),
        forall|id: u128|
            #[trigger] person_count(signals, since_days, today, id) != 0 ==> find_idx(
                accumulate(signals, since_days, today),
                id,
            ) >= 0,
        forall|k: int|
            0 <= k < accumulate(signals, since_days, today).len() ==> {
                let e = #[trigger] accumulate(signals, since_days, today)[k];
                e.1.signal_count == person_count(signals, since_days, today, e.0)
                    && e.1.score_tenths == person_score(signals, since_days, today, e.0)
            },
    decreases signals.len(),
{
    if signals.len() > 0 {
        let prefix = signals.drop_last();
        let sig = signals.last();
        let id0 = sig.scholar_id;
        lemma_accumulate_per_scholar(prefix, since_days, today);
        let g = accumulate(prefix, since_days, today);
        let g1 = accumulate(signals, since_days, today);
        if !included(sig, since_days, today) {
            assert(g1 == g);
            assert forall|id: u128|
                #[trigger] person_count(signals, since_days, today, id) != 0 implies find_idx(
                g1,
                id,
            ) >= 0 by {
                assert(person_count(signals, since_days, today, id) == person_count(
                    prefix,
                    since_days,
                    today,
                    id,
                ));
            }
            assert forall|k: int| 0 <= k < g1.len() implies {
                let en = #[trigger] g1[k];
                en.1.signal_count == person_count(signals, since_days, today, en.0)
                    && en.1.score_tenths == person_score(signals, since_days, today, en.0)
            } by {
                assert(person_count(signals, since_days, today, g1[k].0) == person_count(
                    prefix,
                    since_days,
                    today,
                    g1[k].0,
                ));
                assert(person_score(signals, since_days, today, g1[k].0) == person_score(
                    prefix,
                    since_days,
                    today,
                    g1[k].0,
                ));
            }
        } else {
            let i = find_idx(g, id0);
            lemma_find_idx_in_range(g, id0);
            if i < 0 {
                lemma_find_idx_neg_all(g, id0);
                let e = (id0, new_score(sig, today));
                assert(g1 == g.push(e));
                assert(person_count(prefix, since_days, today, id0) == 0);
                lemma_person_score_zero(prefix, since_days, today, id0);
                assert forall|k: int| 0 <= k < g1.len() implies {
                    let en = #[trigger] g1[k];
                    en.1.signal_count == person_count(signals, since_days, today, en.0)
                        && en.1.score_tenths == person_score(signals, since_days, today, en.0)
                } by {
                    if k < g.len() {
                        assert(g1[k] == g[k]);
                        assert(g[k].0 != id0);
                    } else {
                        assert(g1[k] == e);
                    }
                }
                assert forall|id: u128|
                    #[trigger] person_count(signals, since_days, today, id) != 0 implies find_idx(
                    g1,
                    id,
                ) >= 0 by {
                    if person_count(prefix, since_days, today, id) != 0 {
                        let j = find_idx(g, id);
                        lemma_find_idx_in_range(g, id);
                        lemma_find_idx_first(g, id);
                        assert(forall|k: int| 0 <= k < j ==> (#[trigger] g1[k]).0 != id);
                        assert(g1[j].0 == id);
                        lemma_find_idx_at(g1, id, j);
                    } else {
                        assert(id == id0);
                        assert(g1[g.len() as int].0 == id0);
                        assert(forall|k: int| 0 <= k < g.len() ==> (#[trigger] g1[k]).0 != id0);
                        lemma_find_idx_at(g1, id0, g.len() as int);
                    }
                }
            } else {
                let e = (id0, add_signal(g[i].1, sig, today));
                assert(g1 == g.update(i, e));
                lemma_find_idx_first(g, id0);
                lemma_accumulate_wf(prefix, since_days, today);
                lemma_count_le_total(g, i);
                lemma_count_total_nonneg(g);
                lemma_contribution_bound(sig, today);
                assert(acc_wf(g[i]));
                assert forall|k: int| 0 <= k < g1.len() implies {
                    let en = #[trigger] g1[k];
                    en.1.signal_count == person_count(signals, since_days, today, en.0)
                        && en.1.score_tenths == person_score(signals, since_days, today, en.0)
                } by {
                    if k == i {
                        assert(g1[k] == e);
                        assert(g[i].0 == id0);
                    } else {
                        assert(g1[k] == g[k]);
                        assert(g[k].0 != id0);
                    }
                }
                assert forall|id: u128|
                    #[trigger] person_count(signals, since_days, today, id) != 0 implies find_idx(
                    g1,
                    id,
                ) >= 0 by {
                    if person_count(prefix, since_days, today, id) != 0 {
                        let j = find_idx(g, id);
                        lemma_find_idx_in_range(g, id);
                        lemma_find_idx_first(g, id);
                        assert forall|k: int| 0 <= k < j implies (#[trigger] g1[k]).0 != id by {
                            assert(g1[k].0 == g[k].0);
                        }
                        assert(g1[j].0 == g[j].0);
                        lemma_find_idx_at(g1, id, j);
                    } else {
                        assert(id == id0);
                        assert(g1[i].0 == id0);
                        assert forall|k: int| 0 <= k < i implies (#[trigger] g1[k]).0 != id0 by {
                            assert(g1[k].0 == g[k].0);
                        }
                        lemma_find_idx_at(g1, id0, i);
                    }
                }
            }
        }
    }
}

proof fn lemma_find_idx_neg_all(accs: Seq<(u128, ScholarScore)>, id: u128)
    requires
        find_idx(accs, id) == -1,
    ensures
        forall|k: int| 0 <= k < accs.len() ==> (#[trigger] accs[k]).0 != id,
    decreases accs.len(),
{
    if accs.len() > 0 {
        assert(accs[0].0 != id);
        lemma_find_idx_neg_all(accs.drop_first(), id);
        assert forall|k: int| 0 <= k < accs.len() implies (#[trigger] accs[k]).0 != id by {
            if k > 0 {
                assert(accs[k] == accs.drop_first()[k - 1]);
            }
        }
    }
}

/// The scores alone, in accumulator order.
pub open spec fn values_of(accs: Seq<(u128, ScholarScore)>) -> Seq<ScholarScore> {
    accs.map_values(|e: (u128, ScholarScore)| e.1)
}

/// Stable insertion of `x` into a sequence ordered by score descending:
/// `x` goes after every entry whose score is at least its own.
pub open spec fn insert_desc(x: ScholarScore, s: Seq<ScholarScore>) -> Seq<ScholarScore>
    decreases s.len(),
{
    if s.len() == 0 {
        seq![x]
    } else if s[0].score_tenths < x.score_tenths {
        seq![x] + s
    } else {
        seq![s[0]] + insert_desc(x, s.drop_first())
    }
}

/// Insertion sort by score descending, stable across equal scores.
pub open spec fn sort_desc(s: Seq<ScholarScore>) -> Seq<ScholarScore>
    decreases s.len(),
{
    if s.len() == 0 {
        Seq::empty()
    } else {
        insert_desc(s.last(), sort_desc(s.drop_last()))
    }
}

/// Ordered by score descending.
pub open spec fn sorted_desc(s: Seq<ScholarScore>) -> bool {
    forall|i: int, j: int|
        0 <= i <= j < s.len() ==> (#[trigger] s[i]).score_tenths >= (#[trigger] s[j]).score_tenths
}

/// What `score_signals` returns: the per-scholar accumulators over the
/// retained signals, ordered by score descending.
pub open spec fn score_spec(
    signals: Seq<SignalRecord>,
    since_days: int,
    today: Date,
) -> Seq<ScholarScore> {
    sort_desc(values_of(accumulate(signals, since_days, today)))
}

proof fn lemma_insert_desc_at(x: ScholarScore, s: Seq<ScholarScore>, j: int)
    requires
        0 <= j <= s.len(),
        forall|k: int| 0 <= k < j ==> (#[trigger] s[k]).score_tenths >= x.score_tenths,
        j < s.len() ==> s[j].score_tenths < x.score_tenths,
    ensures
        insert_desc(x, s) == s.insert(j, x),
    decreases s.len(),
{
    if s.len() == 0 {
        assert(s.insert(0, x) =~= seq![x]);
    } else if j == 0 {
        assert(s.insert(0, x) =~= seq![x] + s);
    } else {
        let rest = s.drop_first();
        assert(forall|k: int| 0 <= k < j - 1 ==> (#[trigger] rest[k]).score_tenths >= x.score_tenths);
        lemma_insert_desc_at(x, rest, j - 1);
        assert(s.insert(j, x) =~= seq![s[0]] + rest.insert(j - 1, x));
    }
}

/// Every element of an insertion's result is the inserted one or one of
/// the sequence, so a property of all of them is preserved.
proof fn lemma_insert_desc_all(
    p: spec_fn(ScholarScore) -> bool,
    x: ScholarScore,
    s: Seq<ScholarScore>,
)
    requires
        p(x),
        forall|i: int| 0 <= i < s.len() ==> p(#[trigger] s[i]),
    ensures
        forall|i: int| 0 <= i < insert_desc(x, s).len() ==> p(#[trigger] insert_desc(x, s)[i]),
    decreases s.len(),
{
    let r = insert_desc(x, s);
    if s.len() == 0 {
        assert(r == seq![x]);
        assert(forall|i: int| 0 <= i < r.len() ==> p(#[trigger] r[i]));
    } else if s[0].score_tenths < x.score_tenths {
        assert(r == seq![x] + s);
        assert forall|i: int| 0 <= i < r.len() implies p(#[trigger] r[i]) by {
            if i > 0 {
                assert(r[i] == s[i - 1]);
            }
        }
    } else {
        let rest = s.drop_first();
        assert(forall|i: int| 0 <= i < rest.len() ==> p(#[trigger] rest[i]));
        lemma_insert_desc_all(p, x, rest);
        let ins = insert_desc(x, rest);
        assert(r == seq![s[0]] + ins);
        assert forall|i: int| 0 <= i < r.len() implies p(#[trigger] r[i]) by {
            if i > 0 {
                assert(r[i] == ins[i - 1]);
            }
        }
    }
}

/// Sorting preserves a property that holds of every element.
proof fn lemma_sort_desc_all(p: spec_fn(ScholarScore) -> bool, s: Seq<ScholarScore>)
    requires
        forall|i: int| 0 <= i < s.len() ==> p(#[trigger] s[i]),
    ensures
        forall|i: int| 0 <= i < sort_desc(s).len() ==> p(#[trigger] sort_desc(s)[i]),
    decreases s.len(),
{
    if s.len() > 0 {
        assert(forall|i: int|
            0 <= i < s.drop_last().len() ==> p(#[trigger] s.drop_last()[i]));
        lemma_sort_desc_all(p, s.drop_last());
        lemma_insert_desc_all(p, s.last(), sort_desc(s.drop_last()));
    }
}

proof fn lemma_insert_desc_sorted(x: ScholarScore, s: Seq<ScholarScore>)
    requires
        sorted_desc(s),
    ensures
        sorted_desc(insert_desc(x, s)),
    decreases s.len(),
{
    let r = insert_desc(x, s);
    if s.len() == 0 {
        assert(sorted_desc(r));
    } else if s[0].score_tenths < x.score_tenths {
        assert(r == seq![x] + s);
        assert forall|i: int, j: int| 0 <= i <= j < r.len() implies (#[trigger] r[i]).score_tenths
            >= (#[trigger] r[j]).score_tenths by {
            if i == 0 {
                if j > 0 {
                    assert(r[j] == s[j - 1]);
                    assert(s[0].score_tenths >= s[j - 1].score_tenths);
                }
            } else {
                assert(r[i] == s[i - 1]);
                assert(r[j] == s[j - 1]);
            }
        }
    } else {
        let rest = s.drop_first();
        assert(sorted_desc(rest));
        lemma_insert_desc_sorted(x, rest);
        assert(forall|i: int| 0 <= i < rest.len() ==> (#[trigger] rest[i]).score_tenths <= s[0].score_tenths);
        let b: i128 = s[0].score_tenths;
        lemma_insert_desc_all(|e: ScholarScore| e.score_tenths <= b, x, rest);
        assert(forall|i: int|
            0 <= i < insert_desc(x, rest).len() ==> (#[trigger] insert_desc(x, rest)[i]).score_tenths
                <= b);
        let ins = insert_desc(x, rest);
        assert(r == seq![s[0]] + ins);
        assert forall|i: int, j: int| 0 <= i <= j < r.len() implies (#[trigger] r[i]).score_tenths
            >= (#[trigger] r[j]).score_tenths by {
            if i == 0 {
                if j > 0 {
                    assert(r[j] == ins[j - 1]);
                }
            } else {
                assert(r[i] == ins[i - 1]);
                assert(r[j] == ins[j - 1]);
            }
        }
    }
}

/// The sort's result is ordered by score descending.
pub proof fn lemma_sort_desc_sorted(s: Seq<ScholarScore>)
    ensures
        sorted_desc(sort_desc(s)),
    decreases s.len(),
{
    if s.len() > 0 {
        lemma_sort_desc_sorted(s.drop_last());
        lemma_insert_desc_sorted(s.last(), sort_desc(s.drop_last()));
    }
}

/// Sum of the signal counts across per-scholar scores.
pub open spec fn count_sum(s: Seq<ScholarScore>) -> int
    decreases s.len(),
{
    if s.len() == 0 {
        0
    } else {
        count_sum(s.drop_last()) + s.last().signal_count
    }
}

proof fn lemma_count_sum_insert(x: ScholarScore, s: Seq<ScholarScore>)
    ensures
        count_sum(insert_desc(x, s)) == count_sum(s) + x.signal_count,
    decreases s.len(),
{
    if s.len() == 0 {
        assert(count_sum(seq![x]) == count_sum(seq![x].drop_last()) + x.signal_count);
        assert(seq![x].drop_last() =~= Seq::<ScholarScore>::empty());
    } else if s[0].score_tenths < x.score_tenths {
        lemma_count_sum_prepend(x, s);
    } else {
        lemma_count_sum_insert(x, s.drop_first());
        lemma_count_sum_prepend(s[0], insert_desc(x, s.drop_first()));
        lemma_count_sum_prepend(s[0], s.drop_first());
        assert(seq![s[0]] + s.drop_first() =~= s);
    }
}

proof fn lemma_count_sum_prepend(x: ScholarScore, s: Seq<ScholarScore>)
    ensures
        count_sum(seq![x] + s) == x.signal_count + count_sum(s),
    decreases s.len(),
{
    let c = seq![x] + s;
    if s.len() == 0 {
        assert(c =~= seq![x]);
        assert(c.drop_last() =~= Seq::<ScholarScore>::empty());
        assert(count_sum(c.drop_last()) == 0);
        assert(c.last() == x);
        assert(count_sum(c) == count_sum(c.drop_last()) + c.last().signal_count);
    } else {
        lemma_count_sum_prepend(x, s.drop_last());
        assert(c.drop_last() =~= seq![x] + s.drop_last());
        assert(c.last() == s.last());
        assert(count_sum(c) == count_sum(c.drop_last()) + c.last().signal_count);
        assert(count_sum(c.drop_last()) == x.signal_count + count_sum(s.drop_last()));
        assert(count_sum(s) == count_sum(s.drop_last()) + s.last().signal_count);
    }
}

proof fn lemma_count_sum_sort(s: Seq<ScholarScore>)
    ensures
        count_sum(sort_desc(s)) == count_sum(s),
    decreases s.len(),
{
    if s.len() > 0 {
        lemma_count_sum_sort(s.drop_last());
        lemma_count_sum_insert(s.last(), sort_desc(s.drop_last()));
    }
}

proof fn lemma_count_sum_values(accs: Seq<(u128, ScholarScore)>)
    ensures
        count_sum(values_of(accs)) == count_total(accs),
    decreases accs.len(),
{
    if accs.len() == 0 {
        assert(values_of(accs) =~= Seq::<ScholarScore>::empty());
    } else {
        assert(values_of(accs).drop_last() =~= values_of(accs.drop_last()));
        assert(values_of(accs).last() == accs.last().1);
        lemma_count_sum_values(accs.drop_last());
    }
}

/// The sum of `signal_count` across the returned scores equals the number
/// of signals inside the scoring window.
pub proof fn lemma_score_counts(signals: Seq<SignalRecord>, since_days: int, today: Date)
    requires
        signals.len() <= usize::MAX,
    ensures
        count_sum(score_spec(signals, since_days, today)) == included_count(
            signals,
            since_days,
            today,
        ),
{
    lemma_accumulate_wf(signals, since_days, today);
    lemma_count_sum_values(accumulate(signals, since_days, today));
    lemma_count_sum_sort(values_of(accumulate(signals, since_days, today)));
}

/// A signal that occurred strictly before the cutoff leaves the scores
/// unchanged; one exactly at the cutoff is included.
pub proof fn lemma_cutoff_boundary(
    signals: Seq<SignalRecord>,
    sig: SignalRecord,
    since_days: int,
    today: Date,
)
    ensures
        sig.occurred_at.day_num() < cutoff_num(since_days, today) ==> score_spec(
            signals.push(sig),
            since_days,
            today,
        ) == score_spec(signals, since_days, today),
        sig.occurred_at.day_num() == cutoff_num(since_days, today) ==> included(
            sig,
            since_days,
            today,
        ),
{
    let pushed = signals.push(sig);
    assert(pushed.drop_last() =~= signals);
    assert(pushed.last() == sig);
}

proof fn lemma_accumulate_ignores_excluded(
    signals: Seq<SignalRecord>,
    since_days: int,
    today: Date,
)
    ensures
        accumulate(signals, since_days, today) == accumulate(
            signals.filter(|s: SignalRecord| included(s, since_days, today)),
            since_days,
            today,
        ),
    decreases signals.len(),
{
    reveal(Seq::filter);
    let p = |s: SignalRecord| included(s, since_days, today);
    if signals.len() > 0 {
        lemma_accumulate_ignores_excluded(signals.drop_last(), since_days, today);
        let f = signals.filter(p);
        let fp = signals.drop_last().filter(p);
        if p(signals.last()) {
            assert(f == fp.push(signals.last()));
            assert(f.drop_last() =~= fp);
            assert(f.last() == signals.last());
            assert(accumulate(f, since_days, today) == upsert(
                accumulate(fp, since_days, today),
                signals.last(),
                today,
            ));
        } else {
            assert(f == fp);
            assert(accumulate(signals, since_days, today) == accumulate(
                signals.drop_last(),
                since_days,
                today,
            ));
        }
    }
}

/// Scoring sees only the signals inside the window: dropping every signal
/// that occurred strictly before the cutoff leaves the result unchanged.
pub proof fn lemma_score_ignores_excluded(
    signals: Seq<SignalRecord>,
    since_days: int,
    today: Date,
)
    ensures
        score_spec(signals, since_days, today) == score_spec(
            signals.filter(|s: SignalRecord| included(s, since_days, today)),
            since_days,
            today,
        ),
{
    lemma_accumulate_ignores_excluded(signals, since_days, today);
}

/// The scores are a pure function of the signals, the window and `today`:
/// two runs over the same inputs agree entry for entry.
pub proof fn lemma_scoring_deterministic(
    a: Seq<ScholarScore>,
    b: Seq<ScholarScore>,
    signals: Seq<SignalRecord>,
    since_days: int,
    today: Date,
)
    requires
        a == score_spec(signals, since_days, today),
        b == score_spec(signals, since_days, today),
    ensures
        a == b,
{
}

/// Inserts `x` into `res`, kept ordered by score descending, after every
/// entry whose score is at least its own.
fn insert_sorted(res: &mut Vec<ScholarScore>, x: ScholarScore)
    ensures
        final(res)@ == insert_desc(x, old(res)@),
{
    let mut j: usize = 0;
    while j < res.len() && res[j].score_tenths >= x.score_tenths
        invariant
            j <= res@.len(),
            res@ == old(res)@,
            forall|k: int| 0 <= k < j ==> (#[trigger] res@[k]).score_tenths >= x.score_tenths,
        decreases res@.len() - j,
    {
        j = j + 1;
    }
    proof {
        lemma_insert_desc_at(x, res@, j as int);
    }
    res.insert(j, x);
}

/// Folds one retained signal into the accumulator vector.
fn upsert_exec(accs: &mut Vec<(u128, ScholarScore)>, sig: &SignalRecord, today: Date)
    requires
        sig.valid(),
        today.valid(),
        accs_wf(old(accs)@),
        count_total(old(accs)@) < usize::MAX,
    ensures
        final(accs)@ == upsert(old(accs)@, *sig, today),
{
    let days_ago = today.day_number() - sig.occurred_at.day_number();
    let w = recency_weight(days_ago);
    let sev: i64 = sig.severity as i64;
    proof {
        lemma_contribution_bound(*sig, today);
        assert(-CONTRIB_BOUND <= sev * w <= CONTRIB_BOUND) by (nonlinear_arith)
            requires
                -2147483648 <= sev <= 2147483647,
                2 <= w <= 10,
        ;
    }
    let term: i64 = sev * w;
    let mut j: usize = 0;
    while j < accs.len() && accs[j].0 != sig.scholar_id
        invariant
            j <= accs@.len(),
            accs@ == old(accs)@,
            forall|k: int| 0 <= k < j ==> (#[trigger] accs@[k]).0 != sig.scholar_id,
        decreases accs@.len() - j,
    {
        j = j + 1;
    }
    if j < accs.len() {
        proof {
            lemma_find_idx_at(accs@, sig.scholar_id, j as int);
            lemma_count_le_total(accs@, j as int);
            lemma_count_total_nonneg(accs@);
        }
        let entry = accs.remove(j);
        let updated = (
            entry.0,
            ScholarScore {
                scholar_name: entry.1.scholar_name,
                scholar_email: entry.1.scholar_email,
                cohort: entry.1.cohort,
                score_tenths: entry.1.score_tenths + term as i128,
                signal_count: entry.1.signal_count + 1,
            },
        );
        let ghost updated_g = updated;
        accs.insert(j, updated);
        proof {
            assert(accs@ =~= old(accs)@.update(j as int, updated_g));
        }
    } else {
        proof {
            lemma_find_idx_none(accs@, sig.scholar_id);
        }
        accs.push(
            (
                sig.scholar_id,
                ScholarScore {
                    scholar_name: sig.scholar_name.clone(),
                    scholar_email: sig.scholar_email.clone(),
                    cohort: sig.cohort.clone(),
                    score_tenths: term as i128,
                    signal_count: 1,
                },
            ),
        );
    }
}

/// Folds the signals inside the cutoff window into one risk score per
/// scholar and returns them ordered by score descending: exactly
/// `score_spec` of the inputs.
pub fn score_signals(signals: &Vec<SignalRecord>, since_days: i64, today: Date) -> (res: Vec<
    ScholarScore,
>)
    requires
        today.valid(),
        forall|i: int| 0 <= i < signals@.len() ==> (#[trigger] signals@[i]).valid(),
    ensures
        res@ == score_spec(signals@, since_days as int, today),
        sorted_desc(res@),
        count_sum(res@) == included_count(signals@, since_days as int, today),
        forall|i: int| 0 <= i < res@.len() ==> score_wf(#[trigger] res@[i]),
{
    let today_num = today.day_number();
    let window: i64 = if since_days < 1 {
        1
    } else {
        since_days
    };
    let cutoff: i64 = today_num - window;
    let mut accs: Vec<(u128, ScholarScore)> = Vec::new();
    let mut i: usize = 0;
    proof {
        assert(signals@.take(0) =~= Seq::<SignalRecord>::empty());
    }
    while i < signals.len()
        invariant
            i <= signals@.len(),
            today.valid(),
            forall|k: int| 0 <= k < signals@.len() ==> (#[trigger] signals@[k]).valid(),
            today_num == today.day_num(),
            cutoff == cutoff_num(since_days as int, today),
            accs@ == accumulate(signals@.take(i as int), since_days as int, today),
        decreases signals@.len() - i,
    {
        proof {
            lemma_accumulate_wf(signals@.take(i as int), since_days as int, today);
        }
        let sig = &signals[i];
        let occ = sig.occurred_at.day_number();
        if occ >= cutoff {
            upsert_exec(&mut accs, sig, today);
        }
        proof {
            assert(signals@.take(i as int + 1).drop_last() =~= signals@.take(i as int));
            assert(signals@.take(i as int + 1).last() == signals@[i as int]);
        }
        i = i + 1;
    }
    proof {
        assert(signals@.take(signals@.len() as int) =~= signals@);
    }
    let mut res: Vec<ScholarScore> = Vec::new();
    let ghost accs0 = accs@;
    let ghost mut taken: int = 0;
    proof {
        assert(values_of(accs0.take(0)) =~= Seq::<ScholarScore>::empty());
        assert(sort_desc(values_of(accs0.take(0))) =~= Seq::<ScholarScore>::empty());
        assert(accs0.skip(0) =~= accs0);
    }
    while accs.len() > 0
        invariant
            0 <= taken <= accs0.len(),
            accs@ == accs0.skip(taken),
            res@ == sort_desc(values_of(accs0.take(taken))),
        decreases accs@.len(),
    {
        let e = accs.remove(0);
        proof {
            assert(accs0.skip(taken).remove(0) =~= accs0.skip(taken + 1));
            assert(e == accs0[taken]);
            assert(values_of(accs0.take(taken + 1)).drop_last() =~= values_of(accs0.take(taken)));
            assert(values_of(accs0.take(taken + 1)).last() == accs0[taken].1);
        }
        insert_sorted(&mut res, e.1);
        proof {
            taken = taken + 1;
        }
    }
    proof {
        assert(accs0.skip(taken).len() == 0);
        assert(taken == accs0.len());
        assert(accs0.take(taken) =~= accs0);
        lemma_sort_desc_sorted(values_of(accs0));
        lemma_accumulate_wf(signals@, since_days as int, today);
        lemma_count_sum_values(accs0);
        lemma_count_sum_sort(values_of(accs0));
        assert forall|k: int| 0 <= k < values_of(accs0).len() implies score_wf(
            #[trigger] values_of(accs0)[k],
        ) by {
            assert(values_of(accs0)[k] == accs0[k].1);
            assert(acc_wf(accs0[k]));
        }
        lemma_sort_desc_all(|e: ScholarScore| score_wf(e), values_of(accs0));
    }
    res
}

} // verus!
