//! The report of `openai runs list`.
use vstd::prelude::*;
use crate::commands::TableConfig;
use crate::output_format::{shown_header, idec, signed_decimal_string, lines_of, table_to_string, text_of};
use crate::table::{strs, table_of};

verus! {

/// A run of a thread in OpenAI, as the report shows it.
#[derive(Debug, Clone, PartialEq, Eq)]
pub struct RunData {
    pub id: String,
    pub thread_id: String,
    pub assistant_id: String,
    pub status: String,
    pub model: String,
    pub created_at: i64,
}

/// The column names of the runs table.
pub open spec fn run_columns() -> Seq<Seq<char>> {
    seq!["id"@, "thread_id"@, "assistant_id"@, "status"@, "model"@, "created_at"@]
}

/// The cells of a run, in the order of the columns.
pub open spec fn run_cells(f: RunData) -> Seq<Seq<char>> {
    seq![f.id@, f.thread_id@, f.assistant_id@, f.status@, f.model@, idec(f.created_at as int)]
}

impl RunData {
    /// The column names of the table, in order.
    pub fn column_names() -> (r: Vec<String>)
        ensures
            r@.len() == 6,
            strs(r@) == run_columns(),
    {
        let r = vec![
            String::from_str("id"),
            String::from_str("thread_id"),
            String::from_str("assistant_id"),
            String::from_str("status"),
            String::from_str("model"),
            String::from_str("created_at"),
        ];
        assert(strs(r@) =~= run_columns());
        r
    }

    /// The cells of this record, in the order of the columns.
    pub fn cells(&self) -> (r: Vec<String>)
        ensures
            r@.len() == 6,
            strs(r@) == run_cells(*self),
    {
        let r = vec![
            self.id.clone(),
            self.thread_id.clone(),
            self.assistant_id.clone(),
            self.status.clone(),
            self.model.clone(),
            signed_decimal_string(self.created_at),
        ];
        assert(strs(r@) =~= run_cells(*self));
        r
    }
}

/// Report for `openai runs list`.
#[derive(Debug, Clone, PartialEq, Eq)]
pub struct ListReport {
    /// Configure table formatting.
    pub table_config: TableConfig,
    /// Current OpenAI runs.
    pub runs: Vec<RunData>,
}

impl ListReport {
    /// The rows of the report's table.
    pub open spec fn rows_spec(&self) -> Seq<Seq<Seq<char>>> {
        Seq::new(self.runs@.len(), |k: int| run_cells(self.runs@[k]))
    }

    /// The runs as a table in the configured layout, then a newline.
    pub fn to_text(&self) -> (r: String)
        ensures
            r@ == text_of(
                lines_of(
                    self.table_config.format_spec(),
                    shown_header(run_columns(), self.runs@.len()),
                    self.rows_spec(),
                ),
            )
                + seq!['\n'],
    {
        let cols = RunData::column_names();
        let mut rows: Vec<Vec<String>> = Vec::new();
        let mut k: usize = 0;
        while k < self.runs.len()
            invariant
                k <= self.runs@.len(),
                strs(cols@) == run_columns(),
                table_of(rows@) =~= self.rows_spec().subrange(0, k as int),
                forall|q: int| 0 <= q < rows@.len() ==> (#[trigger] rows@[q])@.len() == 6,
            decreases self.runs@.len() - k,
        {
            let cells = self.runs[k].cells();
            let ghost before = table_of(rows@);
            rows.push(cells);
            assert(table_of(rows@) =~= before.push(strs(cells@)));
            assert(table_of(rows@) =~= self.rows_spec().subrange(0, k as int + 1));
            k = k + 1;
        }
        assert(table_of(rows@) =~= self.rows_spec());
        let mut r = table_to_string(&cols, &rows, self.table_config.format());
        proof {
            reveal_strlit("\n");
        }
        r.append("\n");
        r
    }
}

} // verus!
