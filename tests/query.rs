use cep_rank::query::answer_query;
use cep_rank::rank::{rank_records, sort_by_distance};
use cep_rank::record::Record;
use cep_rank::scan::{score_row, scan_rows, Row};

fn fields(v: &[&str]) -> Vec<String> {
    v.iter().map(|s| s.to_string()).collect()
}

fn row(name: &str, cep: &str, primary: &str, secondary: &str, status: &str) -> Row {
    Row::from_fields(&fields(&[
        name, "RUA", "Central", "10", "apto 1", "Centro", cep, primary, secondary, status,
    ]))
}

fn rec(name: &str, distance: i64) -> Record {
    Record {
        nomefantasia: name.to_string(),
        tipologradouro: String::new(),
        logradouro: String::new(),
        numero: String::new(),
        complemento: String::new(),
        bairro: String::new(),
        cep: String::new(),
        distance,
    }
}

fn names(rs: &[Record]) -> Vec<String> {
    rs.iter().map(|r| r.nomefantasia.clone()).collect()
}

#[test]
fn short_rows_get_empty_columns() {
    let r = Row::from_fields(&fields(&["Acme", "RUA"]));
    assert_eq!(r.trade_name, "Acme");
    assert_eq!(r.street_type, "RUA");
    assert_eq!(r.street, "");
    assert_eq!(r.postal_code, "");
    assert_eq!(r.status, "");
}

#[test]
fn active_matching_row_is_included_and_inactive_one_is_not() {
    let active = row("Acme", "71000100", "620199", "", "2");
    let inactive = row("Acme", "71000100", "620199", "", "1");
    let sources = vec![vec![active, inactive]];
    let out = answer_query(&sources, "71000123", "6201");
    assert_eq!(out.len(), 1);
    assert_eq!(out[0].nomefantasia, "Acme");
    assert_eq!(out[0].cep, "71000100");
    assert_eq!(out[0].distance, 23);
    assert_eq!(out[0].tipologradouro, "RUA");
    assert_eq!(out[0].logradouro, "Central");
    assert_eq!(out[0].numero, "10");
    assert_eq!(out[0].complemento, "apto 1");
    assert_eq!(out[0].bairro, "Centro");
}

#[test]
fn all_sources_absent_give_an_empty_answer() {
    let sources: Vec<Vec<Row>> = (0..10).map(|_| Vec::new()).collect();
    assert!(answer_query(&sources, "71000123", "6201").is_empty());
}

#[test]
fn equal_distances_keep_source_order() {
    let a = row("First", "71000005", "6201", "", "2");
    let b = row("Second", "71000015", "6201", "", "2");
    let sources = vec![vec![a], vec![b]];
    let out = answer_query(&sources, "71000010", "6201");
    assert_eq!(names(&out), vec!["First", "Second"]);
    assert_eq!(out[0].distance, 5);
    assert_eq!(out[1].distance, 5);
    let swapped = vec![sources[1].clone(), sources[0].clone()];
    let out = answer_query(&swapped, "71000010", "6201");
    assert_eq!(names(&out), vec!["Second", "First"]);
}

#[test]
fn non_numeric_query_code_counts_as_zero() {
    let a = row("A", "71000100", "6201", "", "2");
    let b = row("B", "71000050", "6201", "", "2");
    let out = answer_query(&vec![vec![a, b]], "abc", "6201");
    assert_eq!(names(&out), vec!["B", "A"]);
    assert_eq!(out[0].distance, 71000050);
    assert_eq!(out[1].distance, 71000100);
}

#[test]
fn answer_holds_at_most_five_nearest() {
    let rows: Vec<Row> = (0..8)
        .map(|i| row(&format!("R{}", i), &format!("7100000{}", 8 - i), "6201", "", "2"))
        .collect();
    let out = answer_query(&vec![rows], "71000000", "6201");
    assert_eq!(out.len(), 5);
    let d: Vec<i64> = out.iter().map(|r| r.distance).collect();
    assert_eq!(d, vec![1, 2, 3, 4, 5]);
    assert_eq!(names(&out), vec!["R7", "R6", "R5", "R4", "R3"]);
}

#[test]
fn each_filter_condition_excludes_a_row() {
    let base = 71000000;
    assert!(score_row(&row("Acme", "71000001", "6201", "", "2"), "6201", base).is_some());
    assert!(score_row(&row("Acme", "72000001", "6201", "", "2"), "6201", base).is_none());
    assert!(score_row(&row("", "71000001", "6201", "", "2"), "6201", base).is_none());
    assert!(score_row(&row("Acme", "71000001", "6201", "", "8"), "6201", base).is_none());
    assert!(score_row(&row("Acme", "71000001", "4711", "4712", "2"), "6201", base).is_none());
    assert!(score_row(&row("Acme", "71000001", "4711", "x6201x", "2"), "6201", base).is_some());
}

#[test]
fn unparsable_row_code_counts_as_zero() {
    let r = score_row(&row("Acme", "71-000", "6201", "", "2"), "6201", 71000000).unwrap();
    assert_eq!(r.distance, 71000000);
    assert_eq!(r.cep, "71-000");
}

#[test]
fn distance_is_absolute_difference() {
    let below = score_row(&row("A", "71000100", "6201", "", "2"), "6201", 71000123).unwrap();
    let above = score_row(&row("A", "71000150", "6201", "", "2"), "6201", 71000123).unwrap();
    assert_eq!(below.distance, 23);
    assert_eq!(above.distance, 27);
    let far = score_row(&row("A", "71999999", "6201", "", "2"), "6201", i32::MIN).unwrap();
    assert_eq!(far.distance, 71999999i64 + 2147483648i64);
}

#[test]
fn scan_keeps_row_order() {
    let rows = vec![
        row("A", "71000300", "6201", "", "2"),
        row("B", "71000100", "0000", "", "2"),
        row("C", "71000200", "6201", "", "2"),
    ];
    let out = scan_rows(&rows, "6201", 0);
    assert_eq!(names(&out), vec!["A", "C"]);
}

#[test]
fn empty_source_changes_nothing() {
    let a = row("A", "71000003", "6201", "", "2");
    let b = row("B", "71000001", "6201", "", "2");
    let with_gap = vec![vec![a.clone()], Vec::new(), vec![b.clone()]];
    let without = vec![vec![a], vec![b]];
    assert_eq!(
        answer_query(&with_gap, "71000000", "6201"),
        answer_query(&without, "71000000", "6201")
    );
}

#[test]
fn repeated_query_gives_same_answer() {
    let sources = vec![
        vec![row("A", "71000003", "6201", "", "2"), row("B", "71000003", "6201", "", "2")],
        vec![row("C", "71000001", "6201", "", "2")],
    ];
    let first = answer_query(&sources, "71000000", "6201");
    let second = answer_query(&sources, "71000000", "6201");
    assert_eq!(first, second);
    assert_eq!(names(&first), vec!["C", "A", "B"]);
}

#[test]
fn sort_is_stable_by_distance() {
    let v = vec![rec("a", 3), rec("b", 1), rec("c", 3), rec("d", 0), rec("e", 1)];
    let s = sort_by_distance(v);
    assert_eq!(names(&s), vec!["d", "b", "e", "a", "c"]);
}

#[test]
fn ranking_merges_parts_in_order() {
    let parts = vec![
        vec![rec("a", 4), rec("b", 2)],
        vec![],
        vec![rec("c", 2), rec("d", 9), rec("e", 1), rec("f", 4), rec("g", 0)],
    ];
    let r = rank_records(parts);
    assert_eq!(names(&r), vec!["g", "e", "b", "c", "a"]);
    assert!(rank_records(Vec::new()).is_empty());
}
