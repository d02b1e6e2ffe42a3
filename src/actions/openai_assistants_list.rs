//! The report of `openai assistants list`.
use vstd::prelude::*;
use crate::commands::TableConfig;
use crate::output_format::{shown_header, idec, signed_decimal_string, lines_of, table_to_string, text_of};
use crate::table::{strs, table_of};

verus! {

/// An assistant in OpenAI, as the report shows it.
#[derive(Debug, Clone, PartialEq, Eq)]
pub struct AssistantData {
    pub id: String,
    pub object: String,
    pub created_at: i64,
    pub name: Option<String>,
    pub model: String,
}

/// The text of an optional cell; an absent one is empty.
pub open spec fn opt_text(o: Option<String>) -> Seq<char> {
    match o {
        Some(s) => s@,
        None => Seq::empty(),
    }
}

/// The column names of the assistants table.
pub open spec fn assistant_columns() -> Seq<Seq<char>> {
    seq!["id"@, "object"@, "created_at"@, "name"@, "model"@]
}

/// The cells of an assistant, in the order of the columns.
pub open spec fn assistant_cells(f: AssistantData) -> Seq<Seq<char>> {
    seq![f.id@, f.object@, idec(f.created_at as int), opt_text(f.name), f.model@]
}

impl AssistantData {
    /// The column names of the table, in order.
    pub fn column_names() -> (r: Vec<String>)
        ensures
            r@.len() == 5,
            strs(r@) == assistant_columns(),
    {
        let r = vec![
            String::from_str("id"),
            String::from_str("object"),
            String::from_str("created_at"),
            String::from_str("name"),
            String::from_str("model"),
        ];
        assert(strs(r@) =~= assistant_columns());
        r
    }

    /// The cells of this record, in the order of the columns.
    pub fn cells(&self) -> (r: Vec<String>)
        ensures
            r@.len() == 5,
            strs(r@) == assistant_cells(*self),
    {
        let name = match &self.name {
            Some(n) => n.clone(),
            None => String::new(),
        };
        let r = vec![
            self.id.clone(),
            self.object.clone(),
            signed_decimal_string(self.created_at),
            name,
            self.model.clone(),
        ];
        assert(strs(r@) =~= assistant_cells(*self));
        r
    }
}

/// Report for `openai assistants list`.
#[derive(Debug, Clone, PartialEq, Eq)]
pub struct ListReport {
    /// Configure table formatting.
    pub table_config: TableConfig,
    /// Current OpenAI assistants.
    pub assistants: Vec<AssistantData>,
}

impl ListReport {
    /// The rows of the report's table.
    pub open spec fn rows_spec(&self) -> Seq<Seq<Seq<char>>> {
        Seq::new(self.assistants@.len(), |k: int| assistant_cells(self.assistants@[k]))
    }

    /// The assistants as a table in the configured layout, then a newline.
    pub fn to_text(&self) -> (r: String)
        ensures
            r@ == text_of(
                lines_of(
                    self.table_config.format_spec(),
                    shown_header(assistant_columns(), self.assistants@.len()),
                    self.rows_spec(),
                ),
            )
                + seq!['\n'],
    {
        let cols = AssistantData::column_names();
        let mut rows: Vec<Vec<String>> = Vec::new();
        let mut k: usize = 0;
        while k < self.assistants.len()
            invariant
                k <= self.assistants@.len(),
                strs(cols@) == assistant_columns(),
                table_of(rows@) =~= self.rows_spec().subrange(0, k as int),
                forall|q: int| 0 <= q < rows@.len() ==> (#[trigger] rows@[q])@.len() == 5,
            decreases self.assistants@.len() - k,
        {
            let cells = self.assistants[k].cells();
            let ghost before = table_of(rows@);
            rows.push(cells);
            assert(table_of(rows@) =~= before.push(strs(cells@)));
            assert(table_of(rows@) =~= self.rows_spec().subrange(0, k as int + 1));
            k = k + 1;
        }
        assert(table_of(rows@) =~= self.rows_spec());
        let mut r = table_to_string(&cols, &rows, self.table_config.format());
        proof {
            reveal_strlit("\n");
        }
        r.append("\n");
        r
    }
}

} // verus!
