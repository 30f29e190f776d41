use repo_scan::report::{render_header, render_report, render_row};
use repo_scan::status::{parse_status, Status};

fn status(
    name: &str,
    command_status: Option<i32>,
    branch: &str,
    clean: bool,
    changes: &str,
) -> Status {
    Status {
        name: name.to_string(),
        command_status,
        branch: branch.to_string(),
        clean,
        changes: changes.to_string(),
    }
}

#[test]
fn header_row_text_is_fixed() {
    assert_eq!(render_header(), "path,name,command_status,branch,clean,changes\n");
}

#[test]
fn empty_report_is_header_only() {
    let rows: Vec<(String, Status)> = Vec::new();
    assert_eq!(render_report(&rows), "path,name,command_status,branch,clean,changes\n");
}

#[test]
fn plain_row_is_unquoted() {
    let s = status("x", Some(0), "main...origin/main", true, "");
    let row = render_row(&"/tmp/x".to_string(), &s);
    assert_eq!(row, "/tmp/x,x,0,main...origin/main,true,\n");
}

#[test]
fn negative_exit_code_is_rendered_with_sign() {
    let s = status("x", Some(-13), "b", false, "M a");
    let row = render_row(&"p".to_string(), &s);
    assert_eq!(row, "p,x,-13,b,false,M a\n");
}

#[test]
fn missing_exit_code_is_an_empty_field() {
    let s = status("x", None, "b", true, "");
    let row = render_row(&"p".to_string(), &s);
    assert_eq!(row, "p,x,,b,true,\n");
}

#[test]
fn fields_with_commas_newlines_and_quotes_are_quoted() {
    let s = status("x", Some(0), "a,b", false, "say \"hi\"\nM two");
    let row = render_row(&"p".to_string(), &s);
    assert_eq!(row, "p,x,0,\"a,b\",false,\"say \"\"hi\"\"\nM two\"\n");
}

#[test]
fn report_keeps_row_order() {
    let rows = vec![
        ("p1".to_string(), status("a", Some(0), "b1", true, "")),
        ("p2".to_string(), status("b", Some(1), "b2", false, "M x")),
    ];
    let text = render_report(&rows);
    let expected = "path,name,command_status,branch,clean,changes\n\
                    p1,a,0,b1,true,\n\
                    p2,b,1,b2,false,M x\n";
    assert_eq!(text, expected);
}

#[test]
fn csv_round_trip_reconstructs_fields() {
    let rows = vec![
        (
            "/r/one,two".to_string(),
            status("one,two", Some(-2), "main\nextra", false, "M \"a\"\n?? b"),
        ),
        ("/r/plain".to_string(), status("plain", None, "dev", true, "")),
    ];
    let text = render_report(&rows);
    let mut reader = csv::ReaderBuilder::new()
        .has_headers(false)
        .from_reader(text.as_bytes());
    let records: Vec<csv::StringRecord> = reader.records().map(|r| r.unwrap()).collect();
    assert_eq!(records.len(), 3);
    assert_eq!(
        &records[0],
        &csv::StringRecord::from(vec![
            "path",
            "name",
            "command_status",
            "branch",
            "clean",
            "changes",
        ])
    );
    assert_eq!(
        &records[1],
        &csv::StringRecord::from(vec![
            "/r/one,two",
            "one,two",
            "-2",
            "main\nextra",
            "false",
            "M \"a\"\n?? b",
        ])
    );
    assert_eq!(
        &records[2],
        &csv::StringRecord::from(vec!["/r/plain", "plain", "", "dev", "true", ""])
    );
}

#[test]
fn parsed_status_renders_through_report() {
    let s = parse_status("## main...origin/main\n M file.txt\n", Some(0), "repo".to_string());
    let row = render_row(&"/work/repo".to_string(), &s);
    assert_eq!(row, "/work/repo,repo,0,main...origin/main,false,M file.txt\n");
}
