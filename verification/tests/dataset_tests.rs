use cu_solver::dataset::{split, split_records};

fn as_texts(cells: &[Vec<u8>]) -> Vec<String> {
    cells.iter().map(|c| String::from_utf8(c.clone()).unwrap()).collect()
}

fn parsed(content: &str) -> Vec<(String, Vec<String>)> {
    split_records(content.as_bytes())
        .iter()
        .map(|r| (String::from_utf8(r.name.clone()).unwrap(), as_texts(&r.values)))
        .collect()
}

fn by_std(content: &str) -> Vec<(String, Vec<String>)> {
    content
        .lines()
        .map(|line| {
            let mut columns = line.split(",");
            let name = columns.next().unwrap().to_string();
            (name, columns.map(|c| c.to_string()).collect())
        })
        .collect()
}

#[test]
fn split_cuts_at_every_separator() {
    assert_eq!(as_texts(&split(b"a,b,c", b',')), vec!["a", "b", "c"]);
    assert_eq!(as_texts(&split(b"abc", b',')), vec!["abc"]);
    assert_eq!(as_texts(&split(b"", b',')), vec![""]);
    assert_eq!(as_texts(&split(b",", b',')), vec!["", ""]);
    assert_eq!(as_texts(&split(b",a,,b,", b',')), vec!["", "a", "", "b", ""]);
}

#[test]
fn records_have_a_name_and_amounts() {
    assert_eq!(
        parsed("AAAAA,1.5,2.25,3\nBBBBB,-4,5e3\n"),
        vec![
            ("AAAAA".to_string(), vec!["1.5".to_string(), "2.25".to_string(), "3".to_string()]),
            ("BBBBB".to_string(), vec!["-4".to_string(), "5e3".to_string()]),
        ]
    );
}

#[test]
fn last_line_needs_no_line_ending() {
    assert_eq!(parsed("A,1\nB,2"), parsed("A,1\nB,2\n"));
    assert_eq!(parsed("A,1\nB,2").len(), 2);
}

#[test]
fn empty_text_has_no_records() {
    assert_eq!(parsed("").len(), 0);
}

#[test]
fn empty_lines_are_records_without_amounts() {
    assert_eq!(
        parsed("A,1\n\nB,2\n"),
        vec![
            ("A".to_string(), vec!["1".to_string()]),
            ("".to_string(), vec![]),
            ("B".to_string(), vec!["2".to_string()]),
        ]
    );
    assert_eq!(parsed("\n"), vec![("".to_string(), vec![])]);
}

#[test]
fn carriage_return_belongs_to_the_line_ending() {
    assert_eq!(
        parsed("A,1\r\nB,2\r\n"),
        vec![("A".to_string(), vec!["1".to_string()]), ("B".to_string(), vec!["2".to_string()])]
    );
    assert_eq!(parsed("A,1\r\n\r\n").len(), 2);
}

#[test]
fn lone_carriage_return_stays_in_the_line() {
    assert_eq!(parsed("A,1\rB,2\n"), vec![("A".to_string(), vec!["1\rB".to_string(), "2".to_string()])]);
}

#[test]
fn name_without_amounts_is_a_record() {
    assert_eq!(parsed("AAAAA\n"), vec![("AAAAA".to_string(), vec![])]);
    assert_eq!(parsed("AAAAA,\n"), vec![("AAAAA".to_string(), vec!["".to_string()])]);
}

#[test]
fn names_may_hold_any_text() {
    let content = "Grundgeh\u{e4}lt,1\nZulage \u{20ac},2\n";
    assert_eq!(parsed(content)[0].0, "Grundgeh\u{e4}lt");
    assert_eq!(parsed(content)[1].0, "Zulage \u{20ac}");
}

#[test]
fn records_are_the_lines_and_cells_of_the_standard_library() {
    let samples = [
        "",
        "\n",
        "\n\n",
        "a",
        "a\n",
        "a,b\nc,d",
        "a,b\r\nc,d\r\n",
        ",,\n,\n",
        "x\r\n\r\ny",
        "one,1.0,2.0\ntwo,3.0\n\nthree\n",
        "\r\n",
        "a\r\r\nb",
    ];
    for sample in samples {
        assert_eq!(parsed(sample), by_std(sample));
    }
}
