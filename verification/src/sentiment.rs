//! Aggregation of an industry's normalised factors into one sentiment per
//! date.
//!
//! The rows of one industry are grouped by date. A date's score is the mean
//! of its factors; its details map each contributing metric's display name
//! to its factor, a later row replacing an earlier one of the same name.

use vstd::prelude::*;
use crate::decimal::Decimal;
use crate::model::{
    details_map,
    distinct_names,
    views,
    Date,
    DetailEntry,
    FactorRow,
    FactorRowView,
    IndustrySentiment,
    SentimentView,
};
use crate::statistics::{mean, mean_of};

verus! {

/// Some row carries the date.
pub open spec fn has_date(rows: Seq<FactorRowView>, date: Date) -> bool {
    exists|i: int| 0 <= i < rows.len() && (#[trigger] rows[i]).data_date == date
}

/// The dates grow strictly from each position to the next.
pub open spec fn ascending(dates: Seq<Date>) -> bool {
    forall|i: int, j: int|
        0 <= i < j < dates.len() ==> (#[trigger] dates[i]).day_number < (#[trigger] dates[j]).day_number
}

/// The dates are those of the rows: each of them occurs in a row, and each
/// row's date is among them.
pub open spec fn dates_cover(dates: Seq<Date>, rows: Seq<FactorRowView>) -> bool {
    &&& forall|i: int| 0 <= i < dates.len() ==> has_date(rows, #[trigger] dates[i])
    &&& forall|k: int| 0 <= k < rows.len() ==> dates.contains((#[trigger] rows[k]).data_date)
}

/// The factor values of the rows of one date, in the rows' order.
pub open spec fn values_on(rows: Seq<FactorRowView>, date: Date) -> Seq<Decimal>
    decreases rows.len(),
{
    if rows.len() == 0 {
        Seq::empty()
    } else if rows.last().data_date == date {
        values_on(rows.drop_last(), date).push(rows.last().factor_value)
    } else {
        values_on(rows.drop_last(), date)
    }
}

/// The breakdown of one date: each metric name of that date's rows with its
/// factor, a later row replacing an earlier one of the same name.
pub open spec fn details_on(rows: Seq<FactorRowView>, date: Date) -> Map<Seq<char>, Decimal>
    decreases rows.len(),
{
    if rows.len() == 0 {
        Map::empty()
    } else if rows.last().data_date == date {
        details_on(rows.drop_last(), date).insert(rows.last().metric_name, rows.last().factor_value)
    } else {
        details_on(rows.drop_last(), date)
    }
}

/// The score of a group, given the outcome of taking its mean: the mean,
/// or zero where the group is empty or its mean cannot be represented.
pub open spec fn score_of(center: Option<Decimal>) -> Decimal {
    match center {
        Some(m) => m,
        None => Decimal::spec_zero(),
    }
}

/// The sentiment of an industry on one date.
pub open spec fn sentiment_on(industry: Seq<char>, rows: Seq<FactorRowView>, date: Date) -> SentimentView {
    SentimentView {
        industry,
        data_date: date,
        sentiment_score: score_of(mean_of(values_on(rows, date))),
        details: details_on(rows, date),
    }
}

/// The dates of a sequence of sentiments, in the same order.
pub open spec fn dates_of(sentiments: Seq<SentimentView>) -> Seq<Date> {
    Seq::new(sentiments.len(), |i: int| sentiments[i].data_date)
}

/// `sentiments` is the aggregation of `rows`: one sentiment for each date
/// that occurs in the rows, in ascending date order, each computed from the
/// rows of its date.
pub open spec fn is_sentiment_of(
    industry: Seq<char>,
    rows: Seq<FactorRowView>,
    sentiments: Seq<SentimentView>,
) -> bool {
    &&& ascending(dates_of(sentiments))
    &&& dates_cover(dates_of(sentiments), rows)
    &&& forall|i: int|
        0 <= i < sentiments.len() ==> #[trigger] sentiments[i] == sentiment_on(
            industry,
            rows,
            sentiments[i].data_date,
        )
}

/// An ascending list of dates with one more date put at its place, unless
/// the list has it.
pub open spec fn placed(dates: Seq<Date>, date: Date) -> Seq<Date>
    decreases dates.len(),
{
    if dates.len() == 0 {
        seq![date]
    } else if dates.last().day_number < date.day_number {
        dates.push(date)
    } else if dates.last().day_number == date.day_number {
        dates
    } else {
        placed(dates.drop_last(), date).push(dates.last())
    }
}

/// The dates that occur in the rows, each once, in ascending order.
pub open spec fn dates_in(rows: Seq<FactorRowView>) -> Seq<Date>
    decreases rows.len(),
{
    if rows.len() == 0 {
        Seq::empty()
    } else {
        placed(dates_in(rows.drop_last()), rows.last().data_date)
    }
}

/// The aggregation of `rows`: the sentiment of each date that occurs in the
/// rows, in ascending date order.
pub open spec fn sentiments_of(industry: Seq<char>, rows: Seq<FactorRowView>) -> Seq<SentimentView> {
    Seq::new(dates_in(rows).len(), |i: int| sentiment_on(industry, rows, dates_in(rows)[i]))
}

/// Placing a date keeps the list ascending and adds that date and no other.
pub proof fn lemma_placed(dates: Seq<Date>, date: Date)
    requires
        ascending(dates),
    ensures
        ascending(placed(dates, date)),
        placed(dates, date).contains(date),
        forall|d: Date| dates.contains(d) ==> placed(dates, date).contains(d),
        forall|d: Date| placed(dates, date).contains(d) ==> dates.contains(d) || d == date,
    decreases dates.len(),
{
    let after = placed(dates, date);
    if dates.len() == 0 {
        assert(after[0] == date);
    } else if dates.last().day_number < date.day_number {
        assert(after[after.len() - 1] == date);
        assert forall|i: int, j: int| 0 <= i < j < after.len() implies (#[trigger] after[i]).day_number < (
        #[trigger] after[j]).day_number by {
            if j < dates.len() {
                assert(dates[i].day_number < dates[j].day_number);
            } else if i < dates.len() - 1 {
                assert(dates[i].day_number < dates[dates.len() - 1].day_number);
            }
        }
        assert forall|d: Date| dates.contains(d) implies after.contains(d) by {
            let k = choose|k: int| 0 <= k < dates.len() && dates[k] == d;
            assert(after[k] == d);
        }
        assert forall|d: Date| after.contains(d) implies dates.contains(d) || d == date by {
            let k = choose|k: int| 0 <= k < after.len() && after[k] == d;
            if k < dates.len() {
                assert(dates[k] == d);
            }
        }
    } else if dates.last().day_number == date.day_number {
        assert(dates[dates.len() - 1] == date);
    } else {
        let front = dates.drop_last();
        let last = dates.last();
        assert(ascending(front)) by {
            assert forall|i: int, j: int| 0 <= i < j < front.len() implies (#[trigger] front[i]).day_number < (
            #[trigger] front[j]).day_number by {
                assert(dates[i].day_number < dates[j].day_number);
            }
        }
        lemma_placed(front, date);
        let mid = placed(front, date);
        assert(after[after.len() - 1] == last);
        assert forall|i: int, j: int| 0 <= i < j < after.len() implies (#[trigger] after[i]).day_number < (
        #[trigger] after[j]).day_number by {
            if j < mid.len() {
                assert(mid[i].day_number < mid[j].day_number);
            } else {
                assert(mid.contains(mid[i]));
                if front.contains(mid[i]) {
                    let k = choose|k: int| 0 <= k < front.len() && front[k] == mid[i];
                    assert(dates[k].day_number < dates[dates.len() - 1].day_number);
                }
            }
        }
        let m = choose|m: int| 0 <= m < mid.len() && mid[m] == date;
        assert(after[m] == date);
        assert forall|d: Date| dates.contains(d) implies after.contains(d) by {
            let k = choose|k: int| 0 <= k < dates.len() && dates[k] == d;
            if k < front.len() {
                assert(front[k] == d);
                assert(front.contains(d));
                let n = choose|n: int| 0 <= n < mid.len() && mid[n] == d;
                assert(after[n] == d);
            }
        }
        assert forall|d: Date| after.contains(d) implies dates.contains(d) || d == date by {
            let k = choose|k: int| 0 <= k < after.len() && after[k] == d;
            if k < mid.len() {
                assert(mid[k] == d);
                assert(mid.contains(d));
                if front.contains(d) {
                    let n = choose|n: int| 0 <= n < front.len() && front[n] == d;
                    assert(dates[n] == d);
                }
            } else {
                assert(dates[dates.len() - 1] == d);
            }
        }
    }
}

/// The dates of the rows are ascending and are exactly the dates that occur
/// in the rows.
pub proof fn lemma_dates_in(rows: Seq<FactorRowView>)
    ensures
        ascending(dates_in(rows)),
        dates_cover(dates_in(rows), rows),
    decreases rows.len(),
{
    if rows.len() > 0 {
        let front = rows.drop_last();
        let date = rows.last().data_date;
        lemma_dates_in(front);
        lemma_placed(dates_in(front), date);
        let dates = dates_in(rows);
        assert forall|i: int| 0 <= i < dates.len() implies has_date(rows, #[trigger] dates[i]) by {
            assert(dates.contains(dates[i]));
            if dates_in(front).contains(dates[i]) {
                let k = choose|k: int| 0 <= k < dates_in(front).len() && dates_in(front)[k] == dates[i];
                assert(has_date(front, dates_in(front)[k]));
                let r = choose|r: int| 0 <= r < front.len() && (#[trigger] front[r]).data_date == dates[i];
                assert(rows[r].data_date == dates[i]);
            } else {
                assert(rows[rows.len() - 1].data_date == dates[i]);
            }
        }
        assert forall|k: int| 0 <= k < rows.len() implies dates.contains((#[trigger] rows[k]).data_date) by {
            if k < front.len() {
                assert(dates_in(front).contains(front[k].data_date));
            }
        }
    }
}

/// Every sequence of rows has its aggregation.
pub proof fn lemma_sentiments_exist(industry: Seq<char>, rows: Seq<FactorRowView>)
    ensures
        is_sentiment_of(industry, rows, sentiments_of(industry, rows)),
{
    lemma_dates_in(rows);
    assert(dates_of(sentiments_of(industry, rows)) =~= dates_in(rows));
}

/// Ascending lists of dates with the same members are the same list.
pub proof fn lemma_ascending_unique(a: Seq<Date>, b: Seq<Date>)
    requires
        ascending(a),
        ascending(b),
        forall|d: Date| a.contains(d) <==> b.contains(d),
    ensures
        a == b,
    decreases a.len(),
{
    if a.len() == 0 {
        if b.len() > 0 {
            assert(b.contains(b[0]));
            assert(a.contains(b[0]));
        }
        assert(a =~= b);
    } else {
        let la = a.last();
        assert(a.contains(a[a.len() - 1]));
        assert(b.contains(la));
        let lb = b.last();
        assert(b.contains(b[b.len() - 1]));
        assert(a.contains(lb));
        let ka = choose|k: int| 0 <= k < a.len() && a[k] == lb;
        let kb = choose|k: int| 0 <= k < b.len() && b[k] == la;
        if ka < a.len() - 1 {
            assert(a[ka].day_number < a[a.len() - 1].day_number);
        }
        if kb < b.len() - 1 {
            assert(b[kb].day_number < b[b.len() - 1].day_number);
        }
        assert(la == lb);
        let fa = a.drop_last();
        let fb = b.drop_last();
        assert forall|d: Date| fa.contains(d) <==> fb.contains(d) by {
            if fa.contains(d) {
                let k = choose|k: int| 0 <= k < fa.len() && fa[k] == d;
                assert(a[k] == d);
                assert(a.contains(d));
                assert(a[k].day_number < a[a.len() - 1].day_number);
                let m = choose|m: int| 0 <= m < b.len() && b[m] == d;
                assert(fb[m] == d);
            }
            if fb.contains(d) {
                let k = choose|k: int| 0 <= k < fb.len() && fb[k] == d;
                assert(b[k] == d);
                assert(b.contains(d));
                assert(b[k].day_number < b[b.len() - 1].day_number);
                let m = choose|m: int| 0 <= m < a.len() && a[m] == d;
                assert(fa[m] == d);
            }
        }
        assert(ascending(fa)) by {
            assert forall|i: int, j: int| 0 <= i < j < fa.len() implies (#[trigger] fa[i]).day_number < (
            #[trigger] fa[j]).day_number by {
                assert(a[i].day_number < a[j].day_number);
            }
        }
        assert(ascending(fb)) by {
            assert forall|i: int, j: int| 0 <= i < j < fb.len() implies (#[trigger] fb[i]).day_number < (
            #[trigger] fb[j]).day_number by {
                assert(b[i].day_number < b[j].day_number);
            }
        }
        lemma_ascending_unique(fa, fb);
        assert(a =~= fa.push(la));
        assert(b =~= fb.push(lb));
    }
}

/// The aggregation is determined by the industry and the rows: two
/// sequences that both are the aggregation are the same sequence.
pub proof fn lemma_sentiments_unique(
    industry: Seq<char>,
    rows: Seq<FactorRowView>,
    a: Seq<SentimentView>,
    b: Seq<SentimentView>,
)
    requires
        is_sentiment_of(industry, rows, a),
        is_sentiment_of(industry, rows, b),
    ensures
        a == b,
{
    let da = dates_of(a);
    let db = dates_of(b);
    assert forall|d: Date| da.contains(d) <==> db.contains(d) by {
        if da.contains(d) {
            let k = choose|k: int| 0 <= k < da.len() && da[k] == d;
            assert(has_date(rows, da[k]));
            let r = choose|r: int| 0 <= r < rows.len() && (#[trigger] rows[r]).data_date == d;
            assert(db.contains(rows[r].data_date));
        }
        if db.contains(d) {
            let k = choose|k: int| 0 <= k < db.len() && db[k] == d;
            assert(has_date(rows, db[k]));
            let r = choose|r: int| 0 <= r < rows.len() && (#[trigger] rows[r]).data_date == d;
            assert(da.contains(rows[r].data_date));
        }
    }
    lemma_ascending_unique(da, db);
    assert(a.len() == da.len());
    assert(b.len() == db.len());
    assert forall|i: int| 0 <= i < a.len() implies a[i] == b[i] by {
        assert(da[i] == a[i].data_date);
        assert(db[i] == b[i].data_date);
    }
    assert(a =~= b);
}

/// A sequence that is the aggregation is `sentiments_of`.
pub proof fn lemma_sentiments_of_is(industry: Seq<char>, rows: Seq<FactorRowView>, sentiments: Seq<SentimentView>)
    requires
        is_sentiment_of(industry, rows, sentiments),
    ensures
        sentiments_of(industry, rows) == sentiments,
{
    lemma_sentiments_exist(industry, rows);
    lemma_sentiments_unique(industry, rows, sentiments_of(industry, rows), sentiments);
}

/// No rows aggregate to no sentiments.
pub proof fn lemma_no_rows_no_sentiments(industry: Seq<char>, rows: Seq<FactorRowView>)
    requires
        rows.len() == 0,
    ensures
        sentiments_of(industry, rows) == Seq::<SentimentView>::empty(),
{
    assert(sentiments_of(industry, rows) =~= Seq::<SentimentView>::empty());
}

/// Replacing the value of an entry replaces the value of its name.
pub proof fn lemma_details_replace(entries: Seq<DetailEntry>, k: int, entry: DetailEntry)
    requires
        distinct_names(entries),
        0 <= k < entries.len(),
        entry.metric_name@ == entries[k].metric_name@,
    ensures
        distinct_names(entries.update(k, entry)),
        details_map(entries.update(k, entry)) == details_map(entries).insert(
            entry.metric_name@,
            entry.factor_value,
        ),
    decreases entries.len(),
{
    let updated = entries.update(k, entry);
    let front = entries.drop_last();
    let last = entries.last();
    assert forall|i: int, j: int| 0 <= i < j < updated.len() implies (#[trigger] updated[i]).metric_name@ != (
    #[trigger] updated[j]).metric_name@ by {
        assert(entries[i].metric_name@ != entries[j].metric_name@);
    }
    if k == entries.len() - 1 {
        assert(updated.drop_last() =~= front);
        assert(details_map(updated) =~= details_map(entries).insert(entry.metric_name@, entry.factor_value));
    } else {
        assert(updated.drop_last() =~= front.update(k, entry));
        assert(distinct_names(front)) by {
            assert forall|i: int, j: int| 0 <= i < j < front.len() implies (#[trigger] front[i]).metric_name@ != (
            #[trigger] front[j]).metric_name@ by {
                assert(entries[i].metric_name@ != entries[j].metric_name@);
            }
        }
        lemma_details_replace(front, k, entry);
        assert(entries[k].metric_name@ != entries[entries.len() - 1].metric_name@);
        assert(details_map(updated) =~= details_map(entries).insert(entry.metric_name@, entry.factor_value));
    }
}

/// Records one metric's factor in a breakdown, replacing the value of an
/// entry of the same name.
fn record_detail(entries: &mut Vec<DetailEntry>, name: &String, value: Decimal)
    requires
        distinct_names(old(entries)@),
    ensures
        distinct_names(final(entries)@),
        details_map(final(entries)@) == details_map(old(entries)@).insert(name@, value),
{
    let mut k: usize = 0;
    while k < entries.len()
        invariant
            k <= entries.len(),
            entries@ == old(entries)@,
            distinct_names(entries@),
            forall|j: int| 0 <= j < k ==> (#[trigger] entries@[j]).metric_name@ != name@,
        decreases entries.len() - k,
    {
        if entries[k].metric_name == *name {
            let entry = DetailEntry { metric_name: name.clone(), factor_value: value };
            proof {
                lemma_details_replace(entries@, k as int, entry);
            }
            entries.set(k, entry);
            return;
        }
        k = k + 1;
    }
    let entry = DetailEntry { metric_name: name.clone(), factor_value: value };
    entries.push(entry);
    proof {
        assert(entries@.drop_last() =~= old(entries)@);
        assert forall|i: int, j: int| 0 <= i < j < entries@.len() implies (#[trigger] entries@[i]).metric_name@ != (
        #[trigger] entries@[j]).metric_name@ by {
            if j < old(entries)@.len() {
                assert(old(entries)@[i].metric_name@ != old(entries)@[j].metric_name@);
            } else {
                assert(old(entries)@[i].metric_name@ != name@);
            }
        }
    }
}

/// Puts a date at its place in an ascending list, unless it is there.
fn insert_date(dates: &mut Vec<Date>, date: Date)
    requires
        ascending(old(dates)@),
    ensures
        ascending(final(dates)@),
        final(dates)@.contains(date),
        forall|d: Date| old(dates)@.contains(d) ==> final(dates)@.contains(d),
        forall|d: Date| final(dates)@.contains(d) ==> old(dates)@.contains(d) || d == date,
{
    let mut pos: usize = 0;
    while pos < dates.len() && dates[pos].day_number < date.day_number
        invariant
            pos <= dates.len(),
            dates@ == old(dates)@,
            forall|j: int| 0 <= j < pos ==> (#[trigger] dates@[j]).day_number < date.day_number,
        decreases dates.len() - pos,
    {
        pos = pos + 1;
    }
    if pos < dates.len() && dates[pos].day_number == date.day_number {
        assert(dates@[pos as int] == date);
        return;
    }
    dates.insert(pos, date);
    proof {
        let before = old(dates)@;
        let after = dates@;
        before.insert_ensures(pos as int, date);
        assert(after[pos as int] == date);
        assert forall|i: int, j: int| 0 <= i < j < after.len() implies (#[trigger] after[i]).day_number < (
        #[trigger] after[j]).day_number by {
            let a = if i < pos { i } else { i - 1 };
            let b = if j < pos { j } else { j - 1 };
            if i != pos {
                assert(after[i] == before[a]);
            }
            if j != pos {
                assert(after[j] == before[b]);
            }
            if i != pos && j != pos {
                assert(before[a].day_number < before[b].day_number);
            } else if i == pos {
                assert(before[pos as int].day_number <= before[b].day_number) by {
                    if pos < b {
                        assert(before[pos as int].day_number < before[b].day_number);
                    }
                }
            } else {
                assert(before[a].day_number < date.day_number);
            }
        }
        assert forall|d: Date| before.contains(d) implies after.contains(d) by {
            let i = choose|i: int| 0 <= i < before.len() && before[i] == d;
            if i < pos {
                assert(after[i] == d);
            } else {
                assert(after[i + 1] == before[i]);
            }
        }
        assert forall|d: Date| after.contains(d) implies before.contains(d) || d == date by {
            let i = choose|i: int| 0 <= i < after.len() && after[i] == d;
            if i < pos {
                assert(after[i] == before[i]);
            } else if i > pos {
                assert(after[(i - 1) + 1] == before[i - 1]);
            }
        }
    }
}

/// The dates that occur in the rows, each once, in ascending order.
pub fn distinct_dates(rows: &Vec<FactorRow>) -> (dates: Vec<Date>)
    ensures
        ascending(dates@),
        dates_cover(dates@, views(rows@)),
{
    let ghost all = views(rows@);
    let mut dates: Vec<Date> = Vec::new();
    let mut i: usize = 0;
    while i < rows.len()
        invariant
            i <= rows.len(),
            all == views(rows@),
            ascending(dates@),
            forall|k: int| 0 <= k < dates@.len() ==> has_date(all, #[trigger] dates@[k]),
            forall|k: int| 0 <= k < i ==> dates@.contains((#[trigger] all[k]).data_date),
        decreases rows.len() - i,
    {
        let ghost before = dates@;
        insert_date(&mut dates, rows[i].data_date);
        proof {
            assert(all[i as int].data_date == rows@[i as int].data_date);
            assert forall|k: int| 0 <= k < dates@.len() implies has_date(all, #[trigger] dates@[k]) by {
                let d = dates@[k];
                assert(dates@.contains(d));
                if before.contains(d) {
                    let j = choose|j: int| 0 <= j < before.len() && before[j] == d;
                    assert(has_date(all, before[j]));
                } else {
                    assert(all[i as int].data_date == d);
                }
            }
            assert forall|k: int| 0 <= k < i + 1 implies dates@.contains((#[trigger] all[k]).data_date) by {
                if k < i {
                    assert(before.contains(all[k].data_date));
                }
            }
        }
        i = i + 1;
    }
    dates
}

/// Collects the factor values and the breakdown of one date.
pub fn group_on(rows: &Vec<FactorRow>, date: Date) -> (group: (Vec<Decimal>, Vec<DetailEntry>))
    ensures
        group.0@ == values_on(views(rows@), date),
        details_map(group.1@) == details_on(views(rows@), date),
        distinct_names(group.1@),
{
    let ghost all = views(rows@);
    let mut values: Vec<Decimal> = Vec::new();
    let mut details: Vec<DetailEntry> = Vec::new();
    let mut i: usize = 0;
    assert(all.take(0) =~= Seq::<FactorRowView>::empty());
    while i < rows.len()
        invariant
            i <= rows.len(),
            all == views(rows@),
            values@ == values_on(all.take(i as int), date),
            details_map(details@) == details_on(all.take(i as int), date),
            distinct_names(details@),
        decreases rows.len() - i,
    {
        assert(all.take(i + 1).drop_last() =~= all.take(i as int));
        assert(all.take(i + 1).last() == rows@[i as int]@);
        if rows[i].data_date.day_number == date.day_number {
            values.push(rows[i].factor_value);
            record_detail(&mut details, &rows[i].metric_name, rows[i].factor_value);
        }
        i = i + 1;
    }
    assert(all.take(rows.len() as int) =~= all);
    (values, details)
}

/// The score that is stored for a group, given the outcome of taking its
/// mean: the mean, or zero where the group is empty or its mean cannot be
/// represented.
pub fn score_or_zero(center: Option<Decimal>) -> (r: Decimal)
    ensures
        r == score_of(center),
{
    match center {
        Some(m) => m,
        None => Decimal::zero(),
    }
}

/// Aggregates the normalised factors of one industry's metrics into one
/// sentiment per date, in ascending date order.
///
/// `rows` holds the factors of the industry's metrics and of no others. No
/// rows give no sentiments.
pub fn calculate_industry_sentiment(industry: &String, rows: &Vec<FactorRow>) -> (sentiments: Vec<
    IndustrySentiment,
>)
    ensures
        is_sentiment_of(industry@, views(rows@), views(sentiments@)),
        views(sentiments@) == sentiments_of(industry@, views(rows@)),
        forall|i: int| 0 <= i < sentiments@.len() ==> distinct_names((#[trigger] sentiments@[i]).details@),
        rows@.len() == 0 ==> sentiments@.len() == 0,
{
    let dates = distinct_dates(rows);
    let mut sentiments: Vec<IndustrySentiment> = Vec::new();
    let mut i: usize = 0;
    while i < dates.len()
        invariant
            i <= dates.len(),
            sentiments@.len() == i,
            forall|k: int|
                0 <= k < i ==> (#[trigger] sentiments@[k])@ == sentiment_on(industry@, views(rows@), dates@[k]),
            forall|k: int| 0 <= k < i ==> distinct_names((#[trigger] sentiments@[k]).details@),
        decreases dates.len() - i,
    {
        let date = dates[i];
        let (values, details) = group_on(rows, date);
        let score = score_or_zero(mean(&values));
        let sentiment = IndustrySentiment {
            industry: industry.clone(),
            data_date: date,
            sentiment_score: score,
            details,
        };
        assert(sentiment@ == sentiment_on(industry@, views(rows@), date));
        sentiments.push(sentiment);
        i = i + 1;
    }
    proof {
        let out = views(sentiments@);
        assert(dates_of(out) =~= dates@);
        if rows@.len() == 0 && dates@.len() > 0 {
            assert(has_date(views(rows@), dates@[0]));
        }
        assert(is_sentiment_of(industry@, views(rows@), out));
        lemma_sentiments_of_is(industry@, views(rows@), out);
    }
    sentiments
}

} // verus!
