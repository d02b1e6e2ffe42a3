use assistant::actions::openai_assistants_list::{AssistantData, ListReport as AssistantsReport};
use assistant::actions::openai_files_list::{FileData, ListReport};
use assistant::actions::openai_runs_list::{ListReport as RunsReport, RunData};
use assistant::commands::openai::{Command, FilesCommand};
use assistant::commands::{Cli, CliCommand, TableConfig};
use assistant::output_format::TableOutputFormat;

fn file() -> FileData {
    FileData {
        id: "file-1".to_string(),
        object: "file".to_string(),
        bytes: 120,
        created_at: 1700000000,
        filename: "a.txt".to_string(),
        purpose: "assistants".to_string(),
    }
}

#[test]
fn files_report_as_records() {
    let report = ListReport { table_config: TableConfig { as_records: true }, files: vec![file()] };
    let expected = [
        "-[ RECORD 1 ]\n",
        "id         | file-1\n",
        "object     | file\n",
        "bytes      | 120\n",
        "created_at | 1700000000\n",
        "filename   | a.txt\n",
        "purpose    | assistants\n",
        "\n",
    ].concat();
    assert_eq!(report.to_text(), expected);
}

#[test]
fn files_report_as_grid() {
    let report = ListReport { table_config: TableConfig { as_records: false }, files: vec![file()] };
    let text = report.to_text();
    let lines: Vec<&str> = text.lines().collect();
    assert_eq!(lines[0], " id     | object | bytes | created_at | filename | purpose    ");
    assert_eq!(lines[2], " file-1 | file   | 120   | 1700000000 | a.txt    | assistants ");
    assert_eq!(lines.len(), 4);
    assert_eq!(lines[3], "");
}

#[test]
fn runs_report_empty() {
    let report = RunsReport { table_config: TableConfig { as_records: false }, runs: vec![] };
    assert_eq!(report.to_text(), "\n");
}

#[test]
fn runs_report_grid() {
    let run = RunData {
        id: "run_1".to_string(),
        thread_id: "t".to_string(),
        assistant_id: "asst".to_string(),
        status: "done".to_string(),
        model: "m".to_string(),
        created_at: 5,
    };
    let report = RunsReport { table_config: TableConfig { as_records: false }, runs: vec![run] };
    let text = report.to_text();
    assert!(text.starts_with(" id    | thread_id | assistant_id | status | model | created_at \n"));
    assert!(text.contains(" run_1 | t         | asst         | done   | m     | 5          \n"));
}

#[test]
fn table_config_selects_layout() {
    assert_eq!(TableConfig { as_records: true }.format(), TableOutputFormat::Records);
    assert_eq!(TableConfig { as_records: false }.format(), TableOutputFormat::Table);
}

#[test]
fn cli_holds_command() {
    let cli = Cli {
        command: CliCommand::OpenAi(Command::Files(FilesCommand::List { show_records_as_tables: true })),
    };
    assert_eq!(cli.clone(), cli);
}

#[test]
fn assistants_report_missing_name_is_empty() {
    let a = AssistantData {
        id: "asst_1".to_string(),
        object: "assistant".to_string(),
        created_at: 7,
        name: None,
        model: "gpt-4o".to_string(),
    };
    let report = AssistantsReport { table_config: TableConfig { as_records: true }, assistants: vec![a] };
    let expected = [
        "-[ RECORD 1 ]\n",
        "id         | asst_1\n",
        "object     | assistant\n",
        "created_at | 7\n",
        "name       | \n",
        "model      | gpt-4o\n",
        "\n",
    ]
    .concat();
    assert_eq!(report.to_text(), expected);
}
