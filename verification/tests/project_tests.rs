use puzzle_stats::project::{split_line, join_fields, column_indices, project_row,
    MISSING_COLUMN};

#[test]
fn split_basics() {
    assert_eq!(split_line("a,b,c"), vec!["a", "b", "c"]);
    assert_eq!(split_line("a,,b"), vec!["a", "", "b"]);
    assert_eq!(split_line(""), vec![""]);
    assert_eq!(split_line(","), vec!["", ""]);
    assert_eq!(split_line("solo"), vec!["solo"]);
    assert_eq!(split_line("trailing,"), vec!["trailing", ""]);
}

#[test]
fn join_basics() {
    assert_eq!(join_fields(&vec![]), "");
    assert_eq!(join_fields(&vec!["a".to_string()]), "a");
    assert_eq!(join_fields(&vec!["a".to_string(), "".to_string(), "b".to_string()]), "a,,b");
}

#[test]
fn join_inverts_split() {
    let line = "PuzzleId,,Rating,7,,end";
    assert_eq!(join_fields(&split_line(line)), line);
}

#[test]
fn projection_scenario() {
    let header = split_line("PuzzleId,Rating,Popularity");
    let requested = split_line("Rating,PuzzleId");
    let columns = column_indices(&header, &requested);
    assert_eq!(columns, vec![1, 0]);
    let out = project_row(&split_line("p1,900,3"), &columns);
    assert_eq!(join_fields(&out), "900,p1");
    // the output header is the requested names themselves
    assert_eq!(join_fields(&requested), "Rating,PuzzleId");
}

#[test]
fn unknown_column_yields_empty_field() {
    let header = split_line("A,B");
    let requested = split_line("B,Nope,A");
    let columns = column_indices(&header, &requested);
    assert_eq!(columns, vec![1, MISSING_COLUMN, 0]);
    let out = project_row(&split_line("1,2"), &columns);
    assert_eq!(join_fields(&out), "2,,1");
}

#[test]
fn duplicate_header_name_keeps_last_position() {
    let header = split_line("A,B,A");
    let requested = split_line("A");
    let columns = column_indices(&header, &requested);
    assert_eq!(columns, vec![2]);
    let out = project_row(&split_line("x,y,z"), &columns);
    assert_eq!(join_fields(&out), "z");
}

#[test]
fn short_row_projects_empty_fields() {
    let header = split_line("A,B,C");
    let requested = split_line("C,A");
    let columns = column_indices(&header, &requested);
    let out = project_row(&split_line("only"), &columns);
    assert_eq!(join_fields(&out), ",only");
}
