//! Headed CSV tables of timestamped rows, read from a file's bytes.
//!
//! The `csv` crate splits the bytes into a header and records; this module
//! finds the columns a loader needs by name, reads each row's time cell as
//! a decimal integer, and classifies every row as good, as a record the
//! parser rejected, or as a row whose time cannot be read.  The funding
//! loader's de-duplication and settlement-grid check run on the times.
use vstd::prelude::*;
use crate::carry::funding::{
    dedup_last_wins, first_misaligned, first_misaligned_spec, is_last_wins_dedup, FUNDING_INTERVAL_S,
};
use crate::fields::{parse_i64, parsed_i64, position_of};
use crate::ordering::{is_index_permutation, order_by_time};

verus! {

/// What the `csv` reader, with its default settings (a header line,
/// commas, no flexible lengths), makes of `text`: the header cells, then
/// the records up to and including the first one it rejects, each as its
/// cells or as the reader's error message; or the error message when the
/// header itself cannot be read.
pub uninterp spec fn csv_records(text: Seq<u8>) -> Result<
    (Seq<Seq<char>>, Seq<Result<Seq<Seq<char>>, Seq<char>>>),
    Seq<char>,
>;

/// The characters of each string.
pub open spec fn strings_view(v: Seq<String>) -> Seq<Seq<char>> {
    v.map_values(|s: String| s@)
}

/// A record as its cells' characters, or its error message.
pub open spec fn record_view(r: Result<Vec<String>, String>) -> Result<Seq<Seq<char>>, Seq<char>> {
    match r {
        Ok(v) => Ok(strings_view(v@)),
        Err(e) => Err(e@),
    }
}

/// A parse as header and record views.
pub open spec fn parse_view(r: Result<(Vec<String>, Vec<Result<Vec<String>, String>>), String>) -> Result<
    (Seq<Seq<char>>, Seq<Result<Seq<Seq<char>>, Seq<char>>>),
    Seq<char>,
> {
    match r {
        Ok((h, recs)) => Ok(
            (strings_view(h@), recs@.map_values(|x: Result<Vec<String>, String>| record_view(x))),
        ),
        Err(e) => Err(e@),
    }
}

/// `csv::ReaderBuilder::new().from_reader(text)`: its headers, then its
/// records until the first error, each error turned into its message.
#[verifier::external_body]
pub fn read_csv(text: &[u8]) -> (r: Result<(Vec<String>, Vec<Result<Vec<String>, String>>), String>)
    ensures
        parse_view(r) == csv_records(text@),
{
    let mut rdr = csv::ReaderBuilder::new().from_reader(text);
    let headers: Vec<String> = match rdr.headers() {
        Ok(h) => h.iter().map(|s| s.to_string()).collect(),
        Err(e) => return Err(e.to_string()),
    };
    let mut records = Vec::new();
    for rec in rdr.records() {
        let failed = rec.is_err();
        records.push(rec.map(|r| r.iter().map(|s| s.to_string()).collect()).map_err(|e| e.to_string()));
        if failed {
            break;
        }
    }
    Ok((headers, records))
}

/// A row whose time cell reads as an integer.
#[derive(Debug, Clone)]
pub struct TimedRow {
    pub time: i64,
    pub cells: Vec<String>,
}

/// Why a row is not usable.
#[derive(Debug, Clone)]
pub enum RowFault {
    /// The reader rejected the record, with this message.
    Record(String),
    /// The time cell, given here, is not a decimal integer.
    Time(String),
}

/// Why a table is not usable.
#[derive(Debug, Clone)]
pub enum TableFault {
    /// The header line could not be read, with the reader's message.
    Headers(String),
    /// The required column with this position in the request is missing.
    MissingColumn(usize),
}

/// The rows and the positions of the requested columns.
#[derive(Debug, Clone)]
pub struct CsvTable {
    pub headers: Vec<String>,
    pub columns: Vec<usize>,
    pub rows: Vec<Result<TimedRow, RowFault>>,
}

/// Cell `i` of a record, or the empty string past its end.
pub open spec fn cell_at(cells: Seq<Seq<char>>, i: int) -> Seq<char> {
    if 0 <= i < cells.len() { cells[i] } else { Seq::empty() }
}

/// Some header is `name`.
pub open spec fn has_name(names: Seq<Seq<char>>, name: Seq<char>) -> bool {
    exists|i: int| 0 <= i < names.len() && names[i] == name
}

/// `i` is the first position of `name`.
pub open spec fn first_position(names: Seq<Seq<char>>, name: Seq<char>, i: int) -> bool {
    &&& 0 <= i < names.len()
    &&& names[i] == name
    &&& forall|j: int| 0 <= j < i ==> names[j] != name
}

/// How a record with the time in column `t_col` is classified.
pub open spec fn row_spec(rec: Result<Seq<Seq<char>>, Seq<char>>, t_col: int, out: Result<TimedRow, RowFault>) -> bool {
    match rec {
        Err(e) => out matches Err(RowFault::Record(m)) && m@ == e,
        Ok(cells) => match parsed_i64(cell_at(cells, t_col)) {
            None => out matches Err(RowFault::Time(c)) && c@ == cell_at(cells, t_col),
            Some(t) => out matches Ok(row) && row.time == t && strings_view(row.cells@) == cells,
        },
    }
}

/// The table read from a parse for the `required` columns, the time
/// column first: the header error; else the first required column the
/// header lacks; else every column at its first position and every record
/// classified.
pub open spec fn table_spec(
    parse: Result<(Seq<Seq<char>>, Seq<Result<Seq<Seq<char>>, Seq<char>>>), Seq<char>>,
    required: Seq<Seq<char>>,
    r: Result<CsvTable, TableFault>,
) -> bool {
    match parse {
        Err(e) => r matches Err(TableFault::Headers(m)) && m@ == e,
        Ok((h, recs)) => if exists|m: int| 0 <= m < required.len() && !has_name(h, required[m]) {
            &&& r matches Err(TableFault::MissingColumn(m))
            &&& m < required.len()
            &&& !has_name(h, required[m as int])
            &&& forall|j: int| 0 <= j < m ==> has_name(h, #[trigger] required[j])
        } else {
            &&& r matches Ok(t)
            &&& strings_view(t.headers@) == h
            &&& t.columns@.len() == required.len()
            &&& forall|m: int| 0 <= m < required.len() ==> first_position(h, required[m], #[trigger] t.columns@[m] as int)
            &&& t.rows@.len() == recs.len()
            &&& forall|k: int| 0 <= k < recs.len() ==> row_spec(recs[k], t.columns@[0] as int, #[trigger] t.rows@[k])
        },
    }
}

/// The characters of each name.
pub open spec fn names_view(names: Seq<&str>) -> Seq<Seq<char>> {
    names.map_values(|s: &str| s@)
}

fn classify_row(rec: &Result<Vec<String>, String>, t_col: usize) -> (out: Result<TimedRow, RowFault>)
    ensures
        row_spec(record_view(*rec), t_col as int, out),
{
    match rec {
        Err(e) => Err(RowFault::Record(e.clone())),
        Ok(cells) => {
            let cell: String = if t_col < cells.len() { cells[t_col].clone() } else { String::new() };
            proof {
                assert(cell@ == cell_at(strings_view(cells@), t_col as int));
            }
            match parse_i64(cell.as_str()) {
                Some(t) => {
                    let row = TimedRow { time: t, cells: cells.clone() };
                    proof {
                        assert(strings_view(row.cells@) =~= strings_view(cells@));
                    }
                    Ok(row)
                },
                None => Err(RowFault::Time(cell)),
            }
        },
    }
}

/// The table a CSV parse gives for the `required` columns, the time column
/// first.
pub fn table_from_parse(
    parse: Result<(Vec<String>, Vec<Result<Vec<String>, String>>), String>,
    required: &[&str],
) -> (r: Result<CsvTable, TableFault>)
    requires
        required@.len() >= 1,
    ensures
        table_spec(parse_view(parse), names_view(required@), r),
{
    let ghost pv = parse_view(parse);
    let (headers, records) = match parse {
        Err(e) => {
            return Err(TableFault::Headers(e));
        },
        Ok(x) => x,
    };
    let ghost h = strings_view(headers@);
    let ghost req = names_view(required@);
    let ghost recs = records@.map_values(|x: Result<Vec<String>, String>| record_view(x));
    assert(pv == Ok::<_, Seq<char>>((h, recs)));
    let mut columns: Vec<usize> = Vec::new();
    let mut m: usize = 0;
    while m < required.len()
        invariant
            h == strings_view(headers@),
            req == names_view(required@),
            pv == Ok::<_, Seq<char>>((h, recs)),
            pv == parse_view(parse),
            m <= required@.len(),
            columns@.len() == m,
            forall|j: int| 0 <= j < m ==> first_position(h, req[j], #[trigger] columns@[j] as int),
        decreases required@.len() - m,
    {
        match position_of(&headers, required[m]) {
            None => {
                proof {
                    assert(!has_name(h, req[m as int]));
                    assert(0 <= m < req.len() && !has_name(h, req[m as int]));
                    assert(exists|q: int| 0 <= q < req.len() && !has_name(h, req[q]));
                    assert forall|j: int| 0 <= j < m implies has_name(h, #[trigger] req[j]) by {
                        assert(h[columns@[j] as int] == req[j]);
                    }
                }
                return Err(TableFault::MissingColumn(m));
            },
            Some(i) => {
                proof {
                    assert(first_position(h, req[m as int], i as int));
                }
                columns.push(i);
            },
        }
        m = m + 1;
    }
    proof {
        assert forall|j: int| 0 <= j < req.len() implies has_name(h, req[j]) by {
            assert(h[columns@[j] as int] == req[j]);
        }
    }
    let t_col = columns[0];
    let mut rows: Vec<Result<TimedRow, RowFault>> = Vec::new();
    let mut k: usize = 0;
    while k < records.len()
        invariant
            recs == records@.map_values(|x: Result<Vec<String>, String>| record_view(x)),
            k <= records@.len(),
            rows@.len() == k,
            forall|p: int| 0 <= p < k ==> row_spec(recs[p], t_col as int, #[trigger] rows@[p]),
        decreases records@.len() - k,
    {
        let out = classify_row(&records[k], t_col);
        rows.push(out);
        k = k + 1;
    }
    Ok(CsvTable { headers, columns, rows })
}

/// Reads the table of `text` for the `required` columns, the time column
/// first.
pub fn timed_table(text: &[u8], required: &[&str]) -> (r: Result<CsvTable, TableFault>)
    requires
        required@.len() >= 1,
    ensures
        table_spec(csv_records(text@), names_view(required@), r),
{
    table_from_parse(read_csv(text), required)
}

/// The columns the funding loader reads.
pub open spec fn funding_columns() -> Seq<Seq<char>> {
    seq![seq!['t', 'i', 'm', 'e'], seq!['r', 'a', 't', 'e']]
}

/// Every row of the table is good.
pub open spec fn all_rows_good(rows: Seq<Result<TimedRow, RowFault>>) -> bool {
    forall|k: int| 0 <= k < rows.len() ==> (#[trigger] rows[k]) is Ok
}

/// The times of the rows, in row order (zero for a bad row).
pub open spec fn row_times(rows: Seq<Result<TimedRow, RowFault>>) -> Seq<i64> {
    rows.map_values(
        |r: Result<TimedRow, RowFault>|
            match r {
                Ok(t) => t.time,
                Err(_) => 0i64,
            },
    )
}

/// The funding table of a file and, when every row is good, its times
/// collapsed on duplicates (the last row winning) and the first one off the
/// 8h settlement grid.
#[derive(Debug, Clone)]
pub struct FundingTimes {
    pub table: CsvTable,
    pub dedup: Option<(Vec<i64>, Vec<usize>, usize)>,
    pub misaligned: Option<usize>,
}

/// Reads a funding file's `time, rate` table; when every row is good,
/// de-duplicates its times and, when `strict`, finds the first one that is
/// not on the settlement grid.
pub fn funding_times(text: &[u8], strict: bool) -> (r: Result<FundingTimes, TableFault>)
    ensures
        match r {
            Err(f) => table_spec(csv_records(text@), funding_columns(), Err(f)),
            Ok(ft) => {
                &&& table_spec(csv_records(text@), funding_columns(), Ok(ft.table))
                &&& (ft.dedup is Some <==> all_rows_good(ft.table.rows@))
                &&& (ft.dedup matches Some(d) ==> {
                    &&& is_last_wins_dedup(row_times(ft.table.rows@), d.0@, d.1@)
                    &&& d.2 == ft.table.rows@.len() - d.0@.len()
                    &&& strict ==> match ft.misaligned {
                        Some(i) => first_misaligned_spec(d.0@, FUNDING_INTERVAL_S as int) == Some(i as int),
                        None => first_misaligned_spec(d.0@, FUNDING_INTERVAL_S as int) is None,
                    }
                })
                &&& (!strict || ft.dedup is None) ==> ft.misaligned is None
            },
        },
{
    let mut required: Vec<&str> = Vec::new();
    required.push("time");
    required.push("rate");
    proof {
        reveal_strlit("time");
        reveal_strlit("rate");
        assert("time"@ =~= seq!['t', 'i', 'm', 'e']);
        assert("rate"@ =~= seq!['r', 'a', 't', 'e']);
        assert(required@.len() == 2 && required@[0] == "time" && required@[1] == "rate");
        assert(names_view(required@) =~= funding_columns());
    }
    let table = match timed_table(text, required.as_slice()) {
        Ok(t) => t,
        Err(f) => {
            return Err(f);
        },
    };
    let n = table.rows.len();
    let mut times: Vec<i64> = Vec::new();
    let mut k: usize = 0;
    while k < n
        invariant
            n == table.rows@.len(),
            table_spec(csv_records(text@), funding_columns(), Ok::<CsvTable, TableFault>(table)),
            k <= n,
            times@.len() == k,
            forall|p: int| 0 <= p < k ==> (#[trigger] table.rows@[p]) is Ok,
            forall|p: int| 0 <= p < k ==> #[trigger] times@[p] == row_times(table.rows@)[p],
        decreases n - k,
    {
        match &table.rows[k] {
            Ok(row) => {
                times.push(row.time);
            },
            Err(_) => {
                return Ok(FundingTimes { table, dedup: None, misaligned: None });
            },
        }
        k = k + 1;
    }
    assert(times@ =~= row_times(table.rows@));
    let d = dedup_last_wins(&times);
    let misaligned = if strict { first_misaligned(&d.0, FUNDING_INTERVAL_S) } else { None };
    Ok(FundingTimes { table, dedup: Some(d), misaligned })
}

/// A table of timestamped rows and, when every row is good, the order
/// that sorts the rows by time, stably.
#[derive(Debug, Clone)]
pub struct OrderedTimes {
    pub table: CsvTable,
    pub order: Option<Vec<usize>>,
}

/// `order` sorts `times` ascending, keeping rows with equal times in file
/// order.
pub open spec fn stable_time_order(times: Seq<i64>, order: Seq<usize>) -> bool {
    &&& is_index_permutation(order.map_values(|x: usize| x as int), times.len())
    &&& forall|a: int, b: int| 0 <= a < b < order.len() ==> times[order[a] as int] <= times[order[b] as int]
    &&& forall|a: int, b: int|
        0 <= a < b < order.len() && times[order[a] as int] == times[order[b] as int] ==> order[a] < order[b]
}

/// Reads the table of `text` for the `required` columns, the time column
/// first, and, when every row is good, the stable order by time in which
/// the basis, open-interest and on-chain loaders keep their rows.
pub fn ordered_times(text: &[u8], required: &[&str]) -> (r: Result<OrderedTimes, TableFault>)
    requires
        required@.len() >= 1,
    ensures
        match r {
            Err(f) => table_spec(csv_records(text@), names_view(required@), Err(f)),
            Ok(o) => {
                &&& table_spec(csv_records(text@), names_view(required@), Ok(o.table))
                &&& (o.order is Some <==> all_rows_good(o.table.rows@))
                &&& (o.order matches Some(ord) ==> stable_time_order(row_times(o.table.rows@), ord@))
            },
        },
{
    let table = match timed_table(text, required) {
        Ok(t) => t,
        Err(f) => {
            return Err(f);
        },
    };
    let n = table.rows.len();
    let mut times: Vec<i64> = Vec::new();
    let mut k: usize = 0;
    while k < n
        invariant
            n == table.rows@.len(),
            table_spec(csv_records(text@), names_view(required@), Ok::<CsvTable, TableFault>(table)),
            k <= n,
            times@.len() == k,
            forall|p: int| 0 <= p < k ==> (#[trigger] table.rows@[p]) is Ok,
            forall|p: int| 0 <= p < k ==> #[trigger] times@[p] == row_times(table.rows@)[p],
        decreases n - k,
    {
        match &table.rows[k] {
            Ok(row) => {
                times.push(row.time);
            },
            Err(_) => {
                return Ok(OrderedTimes { table, order: None });
            },
        }
        k = k + 1;
    }
    assert(times@ =~= row_times(table.rows@));
    let order = order_by_time(&times);
    Ok(OrderedTimes { table, order: Some(order) })
}

} // verus!
