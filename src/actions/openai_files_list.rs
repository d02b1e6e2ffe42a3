//! The report of `openai files list`.
use vstd::prelude::*;
use crate::commands::TableConfig;
use crate::output_format::{shown_header, idec, signed_decimal_string, lines_of, table_to_string, text_of};
use crate::table::{strs, table_of};

verus! {

/// A file stored in OpenAI, as the report shows it.
#[derive(Debug, Clone, PartialEq, Eq)]
pub struct FileData {
    pub id: String,
    pub object: String,
    pub bytes: i64,
    pub created_at: i64,
    pub filename: String,
    pub purpose: String,
}

/// The column names of the files table.
pub open spec fn file_columns() -> Seq<Seq<char>> {
    seq!["id"@, "object"@, "bytes"@, "created_at"@, "filename"@, "purpose"@]
}

/// The cells of a file, in the order of the columns.
pub open spec fn file_cells(f: FileData) -> Seq<Seq<char>> {
    seq![f.id@, f.object@, idec(f.bytes as int), idec(f.created_at as int), f.filename@, f.purpose@]
}

impl FileData {
    /// The column names of the table, in order.
    pub fn column_names() -> (r: Vec<String>)
        ensures
            r@.len() == 6,
            strs(r@) == file_columns(),
    {
        let r = vec![
            String::from_str("id"),
            String::from_str("object"),
            String::from_str("bytes"),
            String::from_str("created_at"),
            String::from_str("filename"),
            String::from_str("purpose"),
        ];
        assert(strs(r@) =~= file_columns());
        r
    }

    /// The cells of this record, in the order of the columns.
    pub fn cells(&self) -> (r: Vec<String>)
        ensures
            r@.len() == 6,
            strs(r@) == file_cells(*self),
    {
        let r = vec![
            self.id.clone(),
            self.object.clone(),
            signed_decimal_string(self.bytes),
            signed_decimal_string(self.created_at),
            self.filename.clone(),
            self.purpose.clone(),
        ];
        assert(strs(r@) =~= file_cells(*self));
        r
    }
}

/// Report for `openai files list`.
#[derive(Debug, Clone, PartialEq, Eq)]
pub struct ListReport {
    /// Table config of the report.
    pub table_config: TableConfig,
    /// Files in OpenAI.
    pub files: Vec<FileData>,
}

impl ListReport {
    /// The rows of the report's table.
    pub open spec fn rows_spec(&self) -> Seq<Seq<Seq<char>>> {
        Seq::new(self.files@.len(), |k: int| file_cells(self.files@[k]))
    }

    /// The files as a table in the configured layout, then a newline.
    pub fn to_text(&self) -> (r: String)
        ensures
            r@ == text_of(
                lines_of(
                    self.table_config.format_spec(),
                    shown_header(file_columns(), self.files@.len()),
                    self.rows_spec(),
                ),
            )
                + seq!['\n'],
    {
        let cols = FileData::column_names();
        let mut rows: Vec<Vec<String>> = Vec::new();
        let mut k: usize = 0;
        while k < self.files.len()
            invariant
                k <= self.files@.len(),
                strs(cols@) == file_columns(),
                table_of(rows@) =~= self.rows_spec().subrange(0, k as int),
                forall|q: int| 0 <= q < rows@.len() ==> (#[trigger] rows@[q])@.len() == 6,
            decreases self.files@.len() - k,
        {
            let cells = self.files[k].cells();
            let ghost before = table_of(rows@);
            rows.push(cells);
            assert(table_of(rows@) =~= before.push(strs(cells@)));
            assert(table_of(rows@) =~= self.rows_spec().subrange(0, k as int + 1));
            k = k + 1;
        }
        assert(table_of(rows@) =~= self.rows_spec());
        let mut r = table_to_string(&cols, &rows, self.table_config.format());
        proof {
            reveal_strlit("\n");
        }
        r.append("\n");
        r
    }
}

} // verus!
