//! The multi-section text report.
//!
//! `build_report` composes the signal mix, the highest-risk ranking, the
//! most recent notes and the externally supplied weekly trend rows into
//! one text, specified character by character: the result equals
//! `report_spec`, a pure function of the inputs, so repeated calls over
//! the same inputs yield byte-identical text.

use vstd::prelude::*;

use crate::date::Date;
use crate::digits::avg1_seq;
use crate::digits::dec_seq;
use crate::digits::hundredths2_seq;
use crate::digits::int_seq;
use crate::digits::push_avg1;
use crate::digits::push_hundredths2;
use crate::digits::push_i64;
use crate::digits::push_tenths2;
use crate::digits::push_usize;
use crate::digits::tenths2_seq;
use crate::models::ScholarScore;
use crate::models::SignalRecord;
use crate::models::SignalTrend;
use crate::models::SignalTypeSummary;
use crate::risk::score_signals;
use crate::risk::score_spec;
use crate::risk::score_wf;
use crate::summary::summarize_by_type;
use crate::summary::summarize_spec;
use crate::summary::summary_wf;
use crate::summary::SEV_BOUND;

verus! {

/// Stable insertion of `x` into a sequence ordered by occurrence date
/// descending: `x` goes after every signal at least as recent.
pub open spec fn rinsert_desc(x: SignalRecord, s: Seq<SignalRecord>) -> Seq<SignalRecord>
    decreases s.len(),
{
    if s.len() == 0 {
        seq![x]
    } else if s[0].occurred_at.day_num() < x.occurred_at.day_num() {
        seq![x] + s
    } else {
        seq![s[0]] + rinsert_desc(x, s.drop_first())
    }
}

/// Insertion sort by occurrence date descending, stable across equal dates.
pub open spec fn rsort_desc(s: Seq<SignalRecord>) -> Seq<SignalRecord>
    decreases s.len(),
{
    if s.len() == 0 {
        Seq::empty()
    } else {
        rinsert_desc(s.last(), rsort_desc(s.drop_last()))
    }
}

proof fn lemma_rinsert_at(x: SignalRecord, s: Seq<SignalRecord>, j: int)
    requires
        0 <= j <= s.len(),
        forall|k: int|
            0 <= k < j ==> (#[trigger] s[k]).occurred_at.day_num() >= x.occurred_at.day_num(),
        j < s.len() ==> s[j].occurred_at.day_num() < x.occurred_at.day_num(),
    ensures
        rinsert_desc(x, s) == s.insert(j, x),
    decreases s.len(),
{
    if s.len() == 0 {
        assert(s.insert(0, x) =~= seq![x]);
    } else if j == 0 {
        assert(s.insert(0, x) =~= seq![x] + s);
    } else {
        let rest = s.drop_first();
        assert(forall|k: int|
            0 <= k < j - 1 ==> (#[trigger] rest[k]).occurred_at.day_num()
                >= x.occurred_at.day_num());
        lemma_rinsert_at(x, rest, j - 1);
        assert(s.insert(j, x) =~= seq![s[0]] + rest.insert(j - 1, x));
    }
}

proof fn lemma_rinsert_all(p: spec_fn(SignalRecord) -> bool, x: SignalRecord, s: Seq<SignalRecord>)
    requires
        p(x),
        forall|i: int| 0 <= i < s.len() ==> p(#[trigger] s[i]),
    ensures
        forall|i: int| 0 <= i < rinsert_desc(x, s).len() ==> p(#[trigger] rinsert_desc(x, s)[i]),
    decreases s.len(),
{
    let r = rinsert_desc(x, s);
    if s.len() == 0 {
        assert(r == seq![x]);
        assert(forall|i: int| 0 <= i < r.len() ==> p(#[trigger] r[i]));
    } else if s[0].occurred_at.day_num() < x.occurred_at.day_num() {
        assert(r == seq![x] + s);
        assert forall|i: int| 0 <= i < r.len() implies p(#[trigger] r[i]) by {
            if i > 0 {
                assert(r[i] == s[i - 1]);
            }
        }
    } else {
        let rest = s.drop_first();
        assert(forall|i: int| 0 <= i < rest.len() ==> p(#[trigger] rest[i]));
        lemma_rinsert_all(p, x, rest);
        let ins = rinsert_desc(x, rest);
        assert(r == seq![s[0]] + ins);
        assert forall|i: int| 0 <= i < r.len() implies p(#[trigger] r[i]) by {
            if i > 0 {
                assert(r[i] == ins[i - 1]);
            }
        }
    }
}

/// Inserts `x` into `res`, kept ordered by occurrence date descending,
/// after every signal at least as recent.
fn insert_recent_sorted(res: &mut Vec<SignalRecord>, x: SignalRecord)
    requires
        x.valid(),
        forall|k: int| 0 <= k < old(res)@.len() ==> (#[trigger] old(res)@[k]).valid(),
    ensures
        final(res)@ == rinsert_desc(x, old(res)@),
        forall|k: int| 0 <= k < final(res)@.len() ==> (#[trigger] final(res)@[k]).valid(),
{
    let key = x.occurred_at.day_number();
    let mut j: usize = 0;
    while j < res.len() && res[j].occurred_at.day_number() >= key
        invariant
            j <= res@.len(),
            res@ == old(res)@,
            x.valid(),
            key == x.occurred_at.day_num(),
            forall|k: int| 0 <= k < res@.len() ==> (#[trigger] res@[k]).valid(),
            forall|k: int|
                0 <= k < j ==> (#[trigger] res@[k]).occurred_at.day_num()
                    >= x.occurred_at.day_num(),
        decreases res@.len() - j,
    {
        j = j + 1;
    }
    proof {
        lemma_rinsert_at(x, res@, j as int);
        lemma_rinsert_all(|e: SignalRecord| e.valid(), x, res@);
    }
    res.insert(j, x);
}

/// The label of the reported scope: the cohort when one is given, else
/// "all cohorts".
pub open spec fn scope_seq(cohort: Option<&str>) -> Seq<char> {
    match cohort {
        Some(c) => c@,
        None => "all cohorts"@,
    }
}

/// The title, the generation line and the first section header.
pub open spec fn intro_seq(cohort: Option<&str>, cutoff: Date) -> Seq<char> {
    "# Cohort Early Warning Report\n"@ + "Generated for "@ + scope_seq(cohort)
        + " (signals since "@ + cutoff.iso_seq() + ")\n\n## Signal Mix\n"@
}

/// One line of the signal mix: category, count and average severity to one
/// decimal place.
pub open spec fn mix_line(e: SignalTypeSummary) -> Seq<char> {
    "- "@ + e.signal_type@ + ": "@ + dec_seq(e.count as int) + " signals (avg severity "@
        + avg1_seq(e.severity_sum as int, e.count as int) + ")\n"@
}

pub open spec fn mix_lines(s: Seq<SignalTypeSummary>, n: int) -> Seq<char>
    decreases n,
{
    if n <= 0 {
        Seq::empty()
    } else {
        mix_lines(s, n - 1) + mix_line(s[n - 1])
    }
}

pub open spec fn mix_body(s: Seq<SignalTypeSummary>) -> Seq<char> {
    if s.len() == 0 {
        "No signals recorded for this window.\n"@
    } else {
        mix_lines(s, s.len() as int)
    }
}

/// One line of the risk ranking: name, contact, cohort, score to two
/// decimal places, and signal count.
pub open spec fn risk_line(e: ScholarScore) -> Seq<char> {
    "- "@ + e.scholar_name@ + " ("@ + e.scholar_email@ + ", "@ + e.cohort@ + ") score "@
        + tenths2_seq(e.score_tenths as int) + " across "@ + dec_seq(e.signal_count as int)
        + " signals\n"@
}

pub open spec fn risk_lines(s: Seq<ScholarScore>, n: int) -> Seq<char>
    decreases n,
{
    if n <= 0 {
        Seq::empty()
    } else {
        risk_lines(s, n - 1) + risk_line(s[n - 1])
    }
}

/// At most the ten highest-risk scholars are listed.
pub open spec fn risk_body(s: Seq<ScholarScore>) -> Seq<char> {
    if s.len() == 0 {
        "No scholars with signals in this window.\n"@
    } else {
        risk_lines(s, if s.len() <= 10 { s.len() as int } else { 10 })
    }
}

/// One line of the recent notes: name, category, date and note text.
pub open spec fn note_line(e: SignalRecord) -> Seq<char> {
    "- "@ + e.scholar_name@ + " ("@ + e.signal_type@ + ") on "@ + e.occurred_at.iso_seq() + ": "@
        + e.note@ + "\n"@
}

pub open spec fn note_lines(s: Seq<SignalRecord>, n: int) -> Seq<char>
    decreases n,
{
    if n <= 0 {
        Seq::empty()
    } else {
        note_lines(s, n - 1) + note_line(s[n - 1])
    }
}

/// At most the five most recent signals are listed.
pub open spec fn notes_body(s: Seq<SignalRecord>) -> Seq<char> {
    if s.len() == 0 {
        "No signals recorded for this window.\n"@
    } else {
        note_lines(s, if s.len() <= 5 { s.len() as int } else { 5 })
    }
}

/// One weekly trend line: week start, counts and average severity to two
/// decimal places.
pub open spec fn trend_line(e: SignalTrend) -> Seq<char> {
    "- Week of "@ + e.week_start.iso_seq() + ": "@ + int_seq(e.signal_count as int)
        + " signals across "@ + int_seq(e.scholar_count as int) + " scholars (avg severity "@
        + hundredths2_seq(e.avg_severity_hundredths as int) + ")\n"@
}

pub open spec fn trend_lines(s: Seq<SignalTrend>, n: int) -> Seq<char>
    decreases n,
{
    if n <= 0 {
        Seq::empty()
    } else {
        trend_lines(s, n - 1) + trend_line(s[n - 1])
    }
}

/// Trend rows are rendered in the order supplied, never re-sorted.
pub open spec fn trend_body(s: Seq<SignalTrend>) -> Seq<char> {
    if s.len() == 0 {
        "No weekly trend data available for this window.\n"@
    } else {
        trend_lines(s, s.len() as int)
    }
}

/// The whole report: title and metadata, signal mix, highest-risk ranking,
/// recent notes and weekly trend, each section present even when empty.
pub open spec fn report_spec(
    cohort: Option<&str>,
    since_days: int,
    cutoff: Date,
    signals: Seq<SignalRecord>,
    trends: Seq<SignalTrend>,
    today: Date,
) -> Seq<char> {
    intro_seq(cohort, cutoff) + mix_body(summarize_spec(signals))
        + "\n## Highest Risk Scholars\n"@ + risk_body(score_spec(signals, since_days, today))
        + "\n## Recent Signal Notes\n"@ + notes_body(rsort_desc(signals))
        + "\n## Weekly Signal Trend\n"@ + trend_body(trends)
}

/// Two renderings over the same inputs are identical, character for
/// character: the report is a pure function of its inputs.
pub proof fn lemma_report_deterministic(
    a: Seq<char>,
    b: Seq<char>,
    cohort: Option<&str>,
    since_days: int,
    cutoff: Date,
    signals: Seq<SignalRecord>,
    trends: Seq<SignalTrend>,
    today: Date,
)
    requires
        a == report_spec(cohort, since_days, cutoff, signals, trends, today),
        b == report_spec(cohort, since_days, cutoff, signals, trends, today),
    ensures
        a == b,
{
}

/// Composes the report text: exactly `report_spec` of the inputs. Risk
/// scores are recomputed here from the same signals, so the ranking shown
/// matches `score_signals` on them.
pub fn build_report(
    cohort: Option<&str>,
    since_days: i64,
    cutoff: Date,
    signals: &Vec<SignalRecord>,
    trends: &Vec<SignalTrend>,
    today: Date,
) -> (r: String)
    requires
        today.valid(),
        cutoff.valid(),
        forall|i: int| 0 <= i < signals@.len() ==> (#[trigger] signals@[i]).valid(),
        forall|i: int| 0 <= i < trends@.len() ==> (#[trigger] trends@[i]).valid(),
    ensures
        r@ == report_spec(cohort, since_days as int, cutoff, signals@, trends@, today),
{
    let scores = score_signals(signals, since_days, today);
    let summaries = summarize_by_type(signals);
    let mut out = String::new();
    out.append("# Cohort Early Warning Report\n");
    out.append("Generated for ");
    match cohort {
        Some(c) => out.append(c),
        None => out.append("all cohorts"),
    }
    out.append(" (signals since ");
    cutoff.push_iso(&mut out);
    out.append(")\n\n## Signal Mix\n");
    proof {
        assert(out@ =~= intro_seq(cohort, cutoff));
    }
    let ghost intro = out@;
    if summaries.len() == 0 {
        out.append("No signals recorded for this window.\n");
    } else {
        let mut i: usize = 0;
        while i < summaries.len()
            invariant
                i <= summaries@.len(),
                out@ == intro + mix_lines(summaries@, i as int),
                forall|k: int| 0 <= k < summaries@.len() ==> summary_wf(#[trigger] summaries@[k]),
            decreases summaries@.len() - i,
        {
            out.append("- ");
            out.append(summaries[i].signal_type.as_str());
            out.append(": ");
            push_usize(&mut out, summaries[i].count);
            out.append(" signals (avg severity ");
            proof {
                assert(summary_wf(summaries@[i as int]));
                assert(summaries@[i as int].count * SEV_BOUND <= 0xffffffffffffffff * SEV_BOUND);
            }
            push_avg1(&mut out, summaries[i].severity_sum, summaries[i].count);
            out.append(")\n");
            proof {
                assert(out@ =~= intro + mix_lines(summaries@, i as int + 1));
            }
            i = i + 1;
        }
    }
    proof {
        assert(out@ =~= intro_seq(cohort, cutoff) + mix_body(summaries@));
    }
    out.append("\n## Highest Risk Scholars\n");
    let ghost pre_risk = out@;
    if scores.len() == 0 {
        out.append("No scholars with signals in this window.\n");
    } else {
        let limit: usize = if scores.len() <= 10 {
            scores.len()
        } else {
            10
        };
        let mut i: usize = 0;
        while i < limit
            invariant
                i <= limit <= scores@.len(),
                out@ == pre_risk + risk_lines(scores@, i as int),
                forall|k: int| 0 <= k < scores@.len() ==> score_wf(#[trigger] scores@[k]),
            decreases limit - i,
        {
            out.append("- ");
            out.append(scores[i].scholar_name.as_str());
            out.append(" (");
            out.append(scores[i].scholar_email.as_str());
            out.append(", ");
            out.append(scores[i].cohort.as_str());
            out.append(") score ");
            proof {
                assert(score_wf(scores@[i as int]));
            }
            push_tenths2(&mut out, scores[i].score_tenths);
            out.append(" across ");
            push_usize(&mut out, scores[i].signal_count);
            out.append(" signals\n");
            proof {
                assert(out@ =~= pre_risk + risk_lines(scores@, i as int + 1));
            }
            i = i + 1;
        }
    }
    proof {
        assert(out@ =~= intro_seq(cohort, cutoff) + mix_body(summaries@)
            + "\n## Highest Risk Scholars\n"@ + risk_body(scores@));
    }
    out.append("\n## Recent Signal Notes\n");
    let ghost pre_notes = out@;
    let mut recent: Vec<SignalRecord> = Vec::new();
    let mut i: usize = 0;
    proof {
        assert(signals@.take(0) =~= Seq::<SignalRecord>::empty());
    }
    while i < signals.len()
        invariant
            i <= signals@.len(),
            forall|k: int| 0 <= k < signals@.len() ==> (#[trigger] signals@[k]).valid(),
            recent@ == rsort_desc(signals@.take(i as int)),
            forall|k: int| 0 <= k < recent@.len() ==> (#[trigger] recent@[k]).valid(),
        decreases signals@.len() - i,
    {
        insert_recent_sorted(&mut recent, signals[i].duplicate());
        proof {
            assert(signals@.take(i as int + 1).drop_last() =~= signals@.take(i as int));
            assert(signals@.take(i as int + 1).last() == signals@[i as int]);
        }
        i = i + 1;
    }
    proof {
        assert(signals@.take(signals@.len() as int) =~= signals@);
    }
    if recent.len() == 0 {
        out.append("No signals recorded for this window.\n");
    } else {
        let limit: usize = if recent.len() <= 5 {
            recent.len()
        } else {
            5
        };
        let mut i: usize = 0;
        while i < limit
            invariant
                i <= limit <= recent@.len(),
                out@ == pre_notes + note_lines(recent@, i as int),
                forall|k: int| 0 <= k < recent@.len() ==> (#[trigger] recent@[k]).valid(),
            decreases limit - i,
        {
            out.append("- ");
            out.append(recent[i].scholar_name.as_str());
            out.append(" (");
            out.append(recent[i].signal_type.as_str());
            out.append(") on ");
            let d = recent[i].occurred_at;
            d.push_iso(&mut out);
            out.append(": ");
            out.append(recent[i].note.as_str());
            out.append("\n");
            proof {
                assert(out@ =~= pre_notes + note_lines(recent@, i as int + 1));
            }
            i = i + 1;
        }
    }
    proof {
        assert(out@ =~= intro_seq(cohort, cutoff) + mix_body(summaries@)
            + "\n## Highest Risk Scholars\n"@ + risk_body(scores@) + "\n## Recent Signal Notes\n"@
            + notes_body(rsort_desc(signals@)));
    }
    out.append("\n## Weekly Signal Trend\n");
    let ghost pre_trend = out@;
    if trends.len() == 0 {
        out.append("No weekly trend data available for this window.\n");
    } else {
        let mut i: usize = 0;
        while i < trends.len()
            invariant
                i <= trends@.len(),
                out@ == pre_trend + trend_lines(trends@, i as int),
                forall|k: int| 0 <= k < trends@.len() ==> (#[trigger] trends@[k]).valid(),
            decreases trends@.len() - i,
        {
            out.append("- Week of ");
            let d = trends[i].week_start;
            d.push_iso(&mut out);
            out.append(": ");
            push_i64(&mut out, trends[i].signal_count);
            out.append(" signals across ");
            push_i64(&mut out, trends[i].scholar_count);
            out.append(" scholars (avg severity ");
            push_hundredths2(&mut out, trends[i].avg_severity_hundredths);
            out.append(")\n");
            proof {
                assert(out@ =~= pre_trend + trend_lines(trends@, i as int + 1));
            }
            i = i + 1;
        }
    }
    proof {
        assert(out@ =~= report_spec(cohort, since_days as int, cutoff, signals@, trends@, today));
    }
    out
}

} // verus!
