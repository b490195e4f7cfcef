//! Answering a query over the rows of every configured source.
use vstd::prelude::*;
use crate::rank::{ANSWER_SIZE, contents, law_empty_part_is_neutral, lemma_ranked_member, rank_records, ranked};
use crate::record::{Record, RecordView, views_of};
use crate::scan::{Row, abs_diff, included_by, record_of, row_included, scan_rows, scanned};
use crate::text::{int_or_zero, parse_int_or_zero};

verus! {

/// What each source contributes to a query on activity `cnae` near `base`.
pub open spec fn source_results(sources: Seq<Vec<Row>>, cnae: Seq<char>, base: int) -> Seq<
    Seq<RecordView>,
> {
    sources.map_values(|rows: Vec<Row>| scanned(rows@, cnae, base))
}

/// The answer to a query with postal code text `cep` and activity `cnae`.
pub open spec fn answer(sources: Seq<Vec<Row>>, cep: Seq<char>, cnae: Seq<char>) -> Seq<
    RecordView,
> {
    ranked(source_results(sources, cnae, int_or_zero(cep)))
}

/// Answers a query: scans each source's rows, merges the results in source
/// order and keeps the nearest records. A `cep` that is not a decimal `i32`
/// counts as zero.
pub fn answer_query(sources: &Vec<Vec<Row>>, cep: &str, cnae: &str) -> (r: Vec<Record>)
    ensures
        views_of(r@) == answer(sources@, cep@, cnae@),
        r@.len() <= ANSWER_SIZE,
{
    let base = parse_int_or_zero(cep);
    let ghost want = source_results(sources@, cnae@, base as int);
    let mut parts: Vec<Vec<Record>> = Vec::new();
    let mut i: usize = 0;
    while i < sources.len()
        invariant
            0 <= i <= sources@.len(),
            want == source_results(sources@, cnae@, base as int),
            parts@.len() == i,
            contents(parts@) == want.take(i as int),
        decreases sources@.len() - i,
    {
        let part = scan_rows(&sources[i], cnae, base);
        parts.push(part);
        proof {
            assert(contents(parts@)[i as int] == views_of(parts@[i as int]@));
            assert(want[i as int] == scanned(sources@[i as int]@, cnae@, base as int));
            assert(contents(parts@) =~= want.take(i + 1));
        }
        i = i + 1;
    }
    proof {
        assert(want.take(i as int) =~= want);
    }
    rank_records(parts)
}

proof fn lemma_scanned_member(rows: Seq<Row>, cnae: Seq<char>, base: int, m: int)
    requires
        0 <= m < scanned(rows, cnae, base).len(),
    ensures
        exists|j: int|
            0 <= j < rows.len() && row_included(rows[j], cnae) && scanned(rows, cnae, base)[m]
                == record_of(rows[j], base),
{
    let pred = included_by(cnae);
    let f = rows.filter(pred);
    let row = f[m];
    rows.lemma_filter_pred(pred, m);
    assert(f.contains(row));
    rows.lemma_filter_contains_rev(pred, row);
    let j = choose|j: int| 0 <= j < rows.len() && rows[j] == row;
}

/// Every record of an answer is the record of a row that passes the row
/// filter (postal code in the region, a trade name, an active registration,
/// and the queried activity in one of the two activity columns).
pub proof fn law_answer_rows_included(sources: Seq<Vec<Row>>, cep: Seq<char>, cnae: Seq<char>, k: int)
    requires
        0 <= k < answer(sources, cep, cnae).len(),
    ensures
        exists|i: int, j: int|
            0 <= i < sources.len() && 0 <= j < sources[i]@.len() && row_included(
                sources[i]@[j],
                cnae,
            ) && answer(sources, cep, cnae)[k] == record_of(sources[i]@[j], int_or_zero(cep)),
{
    let base = int_or_zero(cep);
    let parts = source_results(sources, cnae, base);
    lemma_ranked_member(parts, k);
    let (i, m) = choose|i: int, m: int|
        0 <= i < parts.len() && 0 <= m < parts[i].len() && parts[i][m] == ranked(parts)[k];
    lemma_scanned_member(sources[i]@, cnae, base, m);
}

/// The distance of every record of an answer is the absolute difference of
/// its postal code and the queried one, each read as a decimal `i32` or zero.
pub proof fn law_answer_distance(sources: Seq<Vec<Row>>, cep: Seq<char>, cnae: Seq<char>, k: int)
    requires
        0 <= k < answer(sources, cep, cnae).len(),
    ensures
        answer(sources, cep, cnae)[k].distance == abs_diff(
            int_or_zero(answer(sources, cep, cnae)[k].cep),
            int_or_zero(cep),
        ),
{
    law_answer_rows_included(sources, cep, cnae, k);
}

/// A source without rows (a missing or unreadable one) changes nothing: the
/// answer is the one the other sources give.
pub proof fn law_empty_source_is_neutral(sources: Seq<Vec<Row>>, cep: Seq<char>, cnae: Seq<char>, i: int)
    requires
        0 <= i < sources.len(),
        sources[i]@.len() == 0,
    ensures
        answer(sources, cep, cnae) == answer(sources.remove(i), cep, cnae),
{
    let base = int_or_zero(cep);
    let others = source_results(sources.remove(i), cnae, base);
    let all = source_results(sources, cnae, base);
    assert(sources[i]@.filter(included_by(cnae)) =~= Seq::<Row>::empty()) by {
        reveal(Seq::filter);
    }
    assert(all[i] =~= Seq::<RecordView>::empty());
    assert forall|k: int| 0 <= k < all.len() && k != i implies all[k] == #[trigger] others.insert(
        i,
        Seq::empty(),
    )[k] by {
        if k < i {
            assert(sources.remove(i)[k] == sources[k]);
        } else {
            assert(sources.remove(i)[k - 1] == sources[k]);
        }
    }
    assert(all =~= others.insert(i, Seq::empty()));
    law_empty_part_is_neutral(others, i);
}

/// The answer depends on the query and on the rows of the sources alone:
/// asking again over the same data gives the same records in the same order.
pub proof fn law_answer_repeatable(a: Seq<Vec<Row>>, b: Seq<Vec<Row>>, cep: Seq<char>, cnae: Seq<char>)
    requires
        a.len() == b.len(),
        forall|i: int| 0 <= i < a.len() ==> #[trigger] a[i]@ == b[i]@,
    ensures
        answer(a, cep, cnae) == answer(b, cep, cnae),
{
    let base = int_or_zero(cep);
    assert(source_results(a, cnae, base) =~= source_results(b, cnae, base));
}

} // verus!
