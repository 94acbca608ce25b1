use harmony::headers::{combine_headers, Combined};
use harmony::info::{collect_harmony_datafiles, Candidate, HarmonyMetadata};
use harmony::write::{
    as_strs, combine_files, combine_line, fast_line, generate_common_fields, header_line,
    names_as_strs, project, slow_line, write_file_rows, write_output, CombineError,
};
use std::path::PathBuf;
use std::rc::Rc;

fn lines(text: &str) -> Vec<String> {
    text.lines().map(|l| l.to_string()).collect()
}

fn name(s: &str) -> Rc<String> {
    Rc::new(s.to_string())
}

fn record(plate: &str, population: Option<&str>, headers: &[&str], data_start: usize) -> HarmonyMetadata {
    HarmonyMetadata {
        path: PathBuf::from("x.txt"),
        db_name: name("d"),
        db_location: name("l"),
        eval_sig: String::from("Sig"),
        plate_name: plate.to_string(),
        measurement: 3,
        evaluation: 14,
        population: population.map(name),
        headers: headers.iter().map(|h| name(h)).collect(),
        data_start,
    }
}

fn preamble() -> String {
    String::from(
        "Database Name\td1\nDatabase Location\tloc1\nEvaluation Signature\tSig1\nPlate Name\tP1\nMeasurement\tMeasurement 1\nEvaluation\tEvaluation2\n",
    )
}

fn file_a() -> Candidate {
    Candidate {
        path: PathBuf::from("a/PlateResults.txt"),
        lines: lines(&(preamble() + "[Data]\nName\tScore\nAnn\t1\n")),
    }
}

fn file_b() -> Candidate {
    Candidate {
        path: PathBuf::from("b/PlateResults.txt"),
        lines: lines(&(preamble() + "Population\tTreated\n[Data]\nName\tAge\nBob\t5\n")),
    }
}

fn cells(line: &str) -> Vec<Vec<char>> {
    line.split('\t').map(|c| c.chars().collect()).collect()
}

const COMMON: &str = "Plate Name\tMeasurement\tEvaluation\tEvaluation Signature\tPopulation";

#[test]
fn end_to_end_two_files_with_different_columns() {
    let candidates = vec![file_a(), file_b()];
    let records = collect_harmony_datafiles(&candidates);
    assert_eq!(records.len(), 2);
    let data: Vec<Vec<String>> = candidates.iter().map(|c| c.lines.clone()).collect();
    let out = combine_files(&records, &data).unwrap();
    let expected = "Plate Name\tMeasurement\tEvaluation\tEvaluation Signature\tPopulation\tName\tScore\tAge\n\
P1\t1\t2\tSig1\tWell\tAnn\t1\t\n\
P1\t1\t2\tSig1\tTreated\tBob\t\t5\n";
    assert_eq!(out, expected);
}

#[test]
fn a_file_that_is_no_export_file_does_not_disturb_the_combine() {
    let broken = Candidate {
        path: PathBuf::from("c/PlateResults.txt"),
        lines: lines("Database Name\td1\n[Data]\nName\tScore\nEve\t9\n"),
    };
    let candidates = vec![file_a(), broken, file_b()];
    let records = collect_harmony_datafiles(&candidates);
    assert_eq!(records.len(), 2);
    let data = vec![candidates[0].lines.clone(), candidates[2].lines.clone()];
    let out = combine_files(&records, &data).unwrap();
    assert_eq!(out.lines().count(), 3);
    assert!(!out.contains("Eve"));
    assert!(out.ends_with("P1\t1\t2\tSig1\tTreated\tBob\t\t5\n"));
}

#[test]
fn same_schema_files_give_one_row_per_data_line_in_file_then_line_order() {
    let files = vec![
        record("North", None, &["Name", "Score"], 2),
        record("South", Some("Cells"), &["Score", "Name"], 1),
    ];
    let data = vec![
        lines("preamble\nName\tScore\nAnn\t1\nBob\t2\nCid\t3\n"),
        lines("Score\tName\n4\tDan\n5\tEve\n"),
    ];
    assert!(combine_headers(&files).is_none());
    let out = combine_files(&files, &data).unwrap();
    let rows: Vec<&str> = out.lines().collect();
    assert_eq!(rows.len(), 1 + 3 + 2);
    assert_eq!(
        rows,
        vec![
            "Plate Name\tMeasurement\tEvaluation\tEvaluation Signature\tPopulation\tName\tScore",
            "North\t3\t14\tSig\tWell\tAnn\t1",
            "North\t3\t14\tSig\tWell\tBob\t2",
            "North\t3\t14\tSig\tWell\tCid\t3",
            "South\t3\t14\tSig\tCells\t4\tDan",
            "South\t3\t14\tSig\tCells\t5\tEve",
        ]
    );
    assert!(out.ends_with('\n'));
}

#[test]
fn the_fast_path_header_is_the_first_files_header() {
    let files = vec![record("P", None, &["b", "a", "c"], 0), record("P", None, &["c", "b", "a"], 0)];
    let header = header_line(&files, &combine_headers(&files)).unwrap();
    assert_eq!(header, format!("{}\tb\ta\tc\n", COMMON));
}

#[test]
fn the_slow_path_header_is_the_canonical_header() {
    let files = vec![record("P", None, &["Name", "Score"], 0), record("P", None, &["Name", "Age"], 0)];
    let header = header_line(&files, &combine_headers(&files)).unwrap();
    assert_eq!(header, format!("{}\tName\tScore\tAge\n", COMMON));
}

#[test]
fn no_files_is_refused_and_nothing_is_written() {
    let records = Vec::new();
    let data: Vec<Vec<String>> = Vec::new();
    assert_eq!(combine_files(&records, &data), Err(CombineError::NoFiles));
    assert_eq!(header_line(&records, &None), Err(CombineError::NoFiles));
    let mut out = String::from("kept");
    let r = write_output(&mut out, &records, &combine_headers(&records), &data);
    assert_eq!(r, Err(CombineError::NoFiles));
    assert_eq!(out, "kept");
}

#[test]
fn missing_lines_are_refused_and_nothing_is_written() {
    let files = vec![record("P", None, &["a"], 0), record("P", None, &["a"], 0)];
    let data = vec![lines("1\n")];
    assert_eq!(combine_files(&files, &data), Err(CombineError::MissingInput));
    let mut out = String::from("kept");
    assert_eq!(write_output(&mut out, &files, &None, &data), Err(CombineError::MissingInput));
    assert_eq!(out, "kept");
    let too_many = vec![lines("1\n"), lines("2\n"), lines("3\n")];
    assert_eq!(combine_files(&files, &too_many), Err(CombineError::MissingInput));
}

#[test]
fn a_reconciliation_that_does_not_fit_is_refused_and_nothing_is_written() {
    let files = vec![record("P", None, &["a"], 0), record("P", None, &["b"], 0)];
    let data = vec![lines("1\n"), lines("2\n")];
    let outside = Some(Combined { hdr: vec![name("a"), name("b")], maps: vec![vec![0], vec![2]] });
    let short = Some(Combined { hdr: vec![name("a"), name("b")], maps: vec![vec![0]] });
    let long = Some(Combined { hdr: vec![name("a")], maps: vec![vec![0], vec![0], vec![0]] });
    for bad in [outside, short, long] {
        assert!(!bad.as_ref().unwrap().fits(files.len()));
        let mut out = String::from("kept");
        assert_eq!(write_output(&mut out, &files, &bad, &data), Err(CombineError::Inconsistent));
        assert_eq!(out, "kept");
        assert_eq!(header_line(&files, &bad), Err(CombineError::Inconsistent));
    }
    let good = combine_headers(&files);
    assert!(good.as_ref().unwrap().fits(2));
    let mut out = String::from(">");
    assert_eq!(write_output(&mut out, &files, &good, &data), Ok(()));
    assert_eq!(out, format!(">{}\ta\tb\nP\t3\t14\tSig\tWell\t1\t\nP\t3\t14\tSig\tWell\t\t2\n", COMMON));
}

#[test]
fn the_output_is_appended_to_what_the_sink_holds() {
    let files = vec![record("P", Some("X"), &["a"], 1)];
    let data = vec![lines("a\n7\n")];
    let mut out = String::from("# before\n");
    assert_eq!(write_output(&mut out, &files, &None, &data), Ok(()));
    assert_eq!(out, format!("# before\n{}\ta\nP\t3\t14\tSig\tX\t7\n", COMMON));
}

#[test]
fn a_file_that_ends_before_its_data_gives_no_rows() {
    let files = vec![record("P", None, &["a"], 5), record("Q", None, &["a"], 2)];
    let data = vec![lines("one\ntwo\n"), lines("one\ntwo\n")];
    let out = combine_files(&files, &data).unwrap();
    assert_eq!(out, format!("{}\ta\n", COMMON));
    let none = vec![Vec::new(), Vec::new()];
    assert_eq!(combine_files(&files, &none).unwrap(), format!("{}\ta\n", COMMON));
}

#[test]
fn empty_data_lines_give_no_rows() {
    let fast = vec![record("P", None, &["a", "b"], 0)];
    assert_eq!(
        combine_files(&fast, &vec![lines("1\t2\n\n3\t4\n\n")]).unwrap(),
        format!("{}\ta\tb\nP\t3\t14\tSig\tWell\t1\t2\nP\t3\t14\tSig\tWell\t3\t4\n", COMMON)
    );
    let slow = vec![record("P", None, &["a", "b"], 0), record("Q", None, &["a"], 0)];
    assert_eq!(
        combine_files(&slow, &vec![lines("\n1\n"), lines("\n")]).unwrap(),
        format!("{}\ta\tb\nP\t3\t14\tSig\tWell\t1\t\n", COMMON)
    );
}

#[test]
fn a_data_line_of_white_space_is_a_row() {
    let fast = vec![record("P", None, &["a"], 0)];
    assert_eq!(
        combine_files(&fast, &vec![lines(" \n\t\n")]).unwrap(),
        format!("{}\ta\nP\t3\t14\tSig\tWell\t\nP\t3\t14\tSig\tWell\t\n", COMMON)
    );
}

#[test]
fn fast_rows_are_the_trimmed_line_behind_the_common_fields() {
    assert_eq!(fast_line("c", "  a\tb \r"), "c\ta\tb");
    assert_eq!(fast_line("c", "a\t\t"), "c\ta");
    assert_eq!(fast_line("", ""), "\t");
}

#[test]
fn slow_rows_place_each_cell_at_its_canonical_position() {
    assert_eq!(slow_line("c", &vec![0, 2], 3, "Bob\t5"), "c\tBob\t\t5");
    assert_eq!(slow_line("c", &vec![2, 0], 3, "x\ty"), "c\ty\t\tx");
    assert_eq!(slow_line("c", &vec![1], 2, "x\tdropped"), "c\t\tx");
    assert_eq!(slow_line("c", &vec![0, 1, 2], 3, "only"), "c\tonly\t\t");
    assert_eq!(slow_line("c", &vec![0, 0], 1, "first\tlast"), "c\tlast");
    assert_eq!(slow_line("c", &vec![], 0, "x"), "c\t");
    assert_eq!(slow_line("c", &vec![0], 1, " x "), "c\t x ");
}

#[test]
fn project_fills_the_columns_that_get_no_cell_with_nothing() {
    assert_eq!(project(&cells("a\tb"), &vec![3, 1], 4), vec!["", "b", "", "a"]);
    assert_eq!(project(&cells("a\tb\tc"), &vec![0], 2), vec!["a", ""]);
    assert_eq!(project(&cells(""), &vec![1, 0], 2), vec!["", ""]);
    assert_eq!(project(&cells("a"), &vec![], 0), Vec::<String>::new());
}

#[test]
fn combine_line_skips_the_lines_before_the_data() {
    let md = record("P", None, &["a"], 3);
    assert_eq!(combine_line(&md, "c", None, 0, 0, "x"), None);
    assert_eq!(combine_line(&md, "c", None, 0, 2, "x"), None);
    assert_eq!(combine_line(&md, "c", None, 0, 3, "x"), Some(String::from("c\tx")));
    assert_eq!(combine_line(&md, "c", None, 0, 3, ""), None);
    assert_eq!(combine_line(&md, "c", None, 0, 3, " "), Some(String::from("c\t")));
    assert_eq!(combine_line(&md, "c", Some(&vec![1]), 2, 9, ""), None);
    assert_eq!(combine_line(&md, "c", Some(&vec![1]), 2, 2, "x"), None);
    assert_eq!(combine_line(&md, "c", Some(&vec![1]), 2, 9, "x"), Some(String::from("c\t\tx")));
}

#[test]
fn write_file_rows_writes_the_rows_of_one_file() {
    let md = record("P", Some("Cells"), &["a", "b"], 1);
    let mut out = String::from(">");
    write_file_rows(&mut out, &md, Some(&vec![1, 0]), 3, &lines("a\tb\n1\t2\n3\n"));
    assert_eq!(out, ">P\t3\t14\tSig\tCells\t2\t1\t\nP\t3\t14\tSig\tCells\t\t3\t\n");
}

#[test]
fn common_fields_are_joined_in_their_order() {
    let md = record("Plate 7", Some("Nuclei"), &["a"], 0);
    assert_eq!(generate_common_fields(&md, "\t"), "Plate 7\t3\t14\tSig\tNuclei");
    assert_eq!(generate_common_fields(&md, ", "), "Plate 7, 3, 14, Sig, Nuclei");
    let mut plain = record("", None, &["a"], 0);
    plain.measurement = 0;
    plain.evaluation = u32::MAX;
    assert_eq!(generate_common_fields(&plain, "|"), "|0|4294967295|Sig|Well");
}

#[test]
fn borrowed_names_are_the_names() {
    assert_eq!(as_strs(&vec![String::from("a"), String::new()]), vec!["a", ""]);
    assert_eq!(names_as_strs(&vec![name("x"), name("y")]), vec!["x", "y"]);
}
