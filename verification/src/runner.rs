//! The benchmark query: its SQL, the plan for each file that it scans, and the rows
//! of its result.

use vstd::prelude::*;
use vstd::string::*;
use datafusion_datasource_parquet::ParquetAccessPlan;
use crate::access_plan::BuiltPlan;
use crate::batch;
use crate::batch::{column_count, int_column, text_column, Batch};
use crate::paths;
use crate::paths::file_id;
use crate::text;
use crate::workload;
use crate::workload::{Pattern, HIT_TOKEN_UPPER};

verus! {

/// Rows per batch that the query engine works on.
pub const BATCH_SIZE: usize = 8192;

/// One plan per file, or `None` for a file without hits, of which nothing is read.
pub type PlanList = Vec<Option<ParquetAccessPlan>>;

/// One row of the result: service name and count.
pub type ResultRow = (String, i64);

// ---------------------------------------------------------------------------
// SQL
// ---------------------------------------------------------------------------

/// The predicate that the index answers: the pattern's body column holds the token.
pub open spec fn where_clause(pattern: Pattern) -> Seq<char> {
    "WHERE "@ + workload::body_column_name(pattern) + " ILIKE '%"@ + HIT_TOKEN_UPPER@ + "%' "@
}

/// The benchmark query. With an index the plans answer the predicate, so it is left
/// out.
pub open spec fn query_text(pattern: Pattern, with_index: bool) -> Seq<char> {
    "SELECT service_name, COUNT(*) AS cnt FROM t "@ + (if with_index {
        Seq::empty()
    } else {
        where_clause(pattern)
    }) + "GROUP BY service_name ORDER BY cnt LIMIT 10"@
}

/// The SQL of the benchmark query.
pub fn build_sql(pattern: Pattern, with_index: bool) -> (sql: String)
    ensures
        sql@ == query_text(pattern, with_index),
{
    let mut sql = "SELECT service_name, COUNT(*) AS cnt FROM t ".to_owned();
    if !with_index {
        sql.append("WHERE ");
        sql.append(pattern.body_column());
        sql.append(" ILIKE '%");
        sql.append(HIT_TOKEN_UPPER);
        sql.append("%' ");
    }
    sql.append("GROUP BY service_name ORDER BY cnt LIMIT 10");
    assert(sql@ =~= query_text(pattern, with_index));
    sql
}

// ---------------------------------------------------------------------------
// Plans for the files of a scan
// ---------------------------------------------------------------------------

/// A path that ends in no file number.
#[derive(Clone, Copy, Debug, PartialEq, Eq, Structural)]
pub struct NoFileId;

/// The entry of `plans` for the file at `path`, which is that of its number. `None` on
/// the outside where the path ends in no number or its number lies beyond the list.
pub open spec fn entry_at(plans: Seq<Option<ParquetAccessPlan>>, path: Seq<char>) -> Option<
    Option<ParquetAccessPlan>,
> {
    match paths::id_in(path) {
        Some(id) => if id < plans.len() {
            Some(plans[id as int])
        } else {
            None
        },
        None => None,
    }
}

/// The entry of `plans` for the file at `path`; `None` where its number lies beyond the
/// list.
pub fn entry_for_path<'a>(plans: &'a PlanList, path: &str) -> (entry: Result<
    Option<&'a Option<ParquetAccessPlan>>,
    NoFileId,
>)
    ensures
        match (paths::id_in(path@), entry_at(plans@, path@)) {
            (None, _) => entry == Err::<Option<&'a Option<ParquetAccessPlan>>, NoFileId>(NoFileId),
            (Some(_), None) => entry == Ok::<Option<&'a Option<ParquetAccessPlan>>, NoFileId>(None),
            (Some(_), Some(listed)) => entry == Ok::<
                Option<&'a Option<ParquetAccessPlan>>,
                NoFileId,
            >(Some(&listed)),
        },
{
    match file_id(path) {
        None => Err(NoFileId),
        Some(id) => {
            if id < plans.len() {
                Ok(Some(&plans[id]))
            } else {
                Ok(None)
            }
        },
    }
}

/// The plans to attach for a run of the query: those given where the index answers the
/// predicate, none where the predicate stands in the query itself.
pub fn plans_in_use<'a>(with_index: bool, plans: Option<&'a PlanList>) -> (used: Option<
    &'a PlanList,
>)
    ensures
        used == (if with_index {
            plans
        } else {
            None
        }),
{
    if with_index {
        plans
    } else {
        None
    }
}

/// The plans of `built`, each for the file of its position.
pub open spec fn listed(built: Seq<BuiltPlan>) -> Seq<Option<ParquetAccessPlan>> {
    Seq::new(built.len(), |f: int| Some(built[f].plan))
}

/// The plans of `built`, each for the file of its position.
pub fn plans_by_file(built: Vec<BuiltPlan>) -> (plans: PlanList)
    ensures
        plans@ == listed(built@),
        plans@ == Seq::new(built@.len(), |f: int| Some(built@[f].plan)),
{
    let ghost all = built@;
    let mut plans: PlanList = Vec::new();
    for one in it: built
        invariant
            it.seq() == all,
            plans@ == Seq::new(it.index() as nat, |f: int| Some(all[f].plan)),
    {
        plans.push(Some(one.plan));
        assert(plans@ =~= Seq::new((it.index() + 1) as nat, |f: int| Some(all[f].plan)));
    }
    plans
}

/// Each data file gets the entry of its own number, whatever directory it lies in.
pub proof fn law_files_get_their_own_plan(
    plans: Seq<Option<ParquetAccessPlan>>,
    f: usize,
    dir: Seq<char>,
)
    requires
        f < plans.len(),
    ensures
        entry_at(plans, dir + seq!['/'] + paths::file_name_text(f as nat)) == Some(plans[f as int]),
{
    paths::law_file_id_reads_file_name(f, dir);
}

// ---------------------------------------------------------------------------
// Result rows
// ---------------------------------------------------------------------------

/// Result rows as their values.
pub open spec fn row_values(rows: Seq<ResultRow>) -> Seq<(Seq<char>, i64)> {
    Seq::new(rows.len(), |k: int| (rows[k].0@, rows[k].1))
}

/// The result rows in a batch whose first two columns are service names and counts;
/// none where they are of other types.
pub open spec fn rows_in(columns: Seq<batch::NamedColumn>) -> Option<Seq<(Seq<char>, i64)>> {
    if columns.len() < 2 {
        None
    } else {
        match (columns[0].values, columns[1].values) {
            (batch::Column::Text(services), batch::Column::Ints(counts)) => Some(
                Seq::new(services.len(), |k: int| (services[k], counts[k])),
            ),
            _ => None,
        }
    }
}

/// Appends the result rows in `batch` to `out`. Returns false, and appends nothing,
/// where its first two columns are not service names and counts.
pub fn push_rows(out: &mut Vec<ResultRow>, batch: &Batch) -> (pushed: bool)
    ensures
        pushed == (rows_in(batch::batch_columns(*batch)) is Some),
        match rows_in(batch::batch_columns(*batch)) {
            Some(rows) => row_values(final(out)@) == row_values(old(out)@) + rows,
            None => final(out)@ == old(out)@,
        },
{
    if column_count(batch) < 2 {
        return false;
    }
    let ghost columns = batch::batch_columns(*batch);
    match (text_column(batch, 0), int_column(batch, 1)) {
        (Some(svc), Some(cnt)) => {
            let ghost rows = rows_in(columns)->0;
            proof {
                assert(batch::has_rows(columns[1].values, svc@.len()));
                assert(text::texts(svc@).len() == svc@.len());
                assert(rows.len() == svc@.len());
            }
            let mut r: usize = 0;
            assert(row_values(out@) =~= row_values(old(out)@) + rows.take(0));
            while r < svc.len()
                invariant
                    r <= svc@.len(),
                    svc@.len() == cnt@.len(),
                    rows.len() == svc@.len(),
                    forall|k: int|
                        0 <= k < rows.len() ==> #[trigger] rows[k] == (svc@[k]@, cnt@[k]),
                    row_values(out@) == row_values(old(out)@) + rows.take(r as int),
                decreases svc@.len() - r,
            {
                let ghost before = out@;
                out.push((svc[r].clone(), cnt[r]));
                proof {
                    assert(row_values(out@) =~= row_values(before).push(rows[r as int]));
                    assert(rows.take(r + 1) =~= rows.take(r as int).push(rows[r as int]));
                    assert(row_values(out@) =~= row_values(old(out)@) + rows.take(r + 1));
                }
                r += 1;
            }
            assert(rows.take(r as int) =~= rows);
            true
        },
        _ => false,
    }
}

/// A batch whose first two columns are texts and numbers gives one result row per row,
/// in order, and any other batch none. Adding a result row adds its values at the end.
pub proof fn law_result_rows_are_the_rows_of_the_batch(
    columns: Seq<batch::NamedColumn>,
    rows: Seq<ResultRow>,
    row: ResultRow,
    k: int,
)
    ensures
        columns.len() < 2 ==> rows_in(columns) is None,
        columns.len() >= 2 ==> match (columns[0].values, columns[1].values) {
            (batch::Column::Text(services), batch::Column::Ints(counts)) => {
                &&& rows_in(columns) matches Some(found)
                &&& found.len() == services.len()
                &&& 0 <= k < services.len() ==> found[k] == (services[k], counts[k])
            },
            _ => rows_in(columns) is None,
        },
        row_values(Seq::empty()).len() == 0,
        row_values(rows.push(row)) == row_values(rows).push((row.0@, row.1)),
{
    assert(row_values(rows.push(row)) =~= row_values(rows).push((row.0@, row.1)));
}

/// The query with the index is the query without it, less the `WHERE` clause in the
/// middle, which names the column of the pattern and the token.
pub proof fn law_the_index_drops_the_predicate_only(pattern: Pattern)
    ensures
        ({
            let select = "SELECT service_name, COUNT(*) AS cnt FROM t "@;
            let group = "GROUP BY service_name ORDER BY cnt LIMIT 10"@;
            let column = match pattern {
                Pattern::Fragmented => "body_fragmented"@,
                Pattern::Clustered => "body_clustered"@,
            };
            &&& query_text(pattern, true) == select + group
            &&& query_text(pattern, false) == select + ("WHERE "@ + column + " ILIKE '%"@
                + "SVC-C3500"@ + "%' "@) + group
        }),
{
    let select = "SELECT service_name, COUNT(*) AS cnt FROM t "@;
    assert(select + Seq::<char>::empty() =~= select);
}

/// Every plan is listed, and in its place: one more plan is listed behind the others.
pub proof fn law_every_plan_is_listed(built: Seq<BuiltPlan>, one: BuiltPlan)
    ensures
        listed(Seq::empty()).len() == 0,
        listed(built.push(one)) == listed(built).push(Some(one.plan)),
{
    assert(listed(built.push(one)) =~= listed(built).push(Some(one.plan)));
}

/// The entry for a path is that of its file number, where the list is long enough.
pub proof fn law_entries_follow_the_number(
    plans: Seq<Option<ParquetAccessPlan>>,
    path: Seq<char>,
)
    ensures
        match paths::id_in(path) {
            Some(id) => entry_at(plans, path) == (if id < plans.len() {
                Some(plans[id as int])
            } else {
                None
            }),
            None => entry_at(plans, path) is None,
        },
{
}

} // verus!
