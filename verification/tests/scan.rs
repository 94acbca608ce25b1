use harmony::info::{
    collect_harmony_datafiles, is_possible_harmony, parse_evaluation, parse_measurement,
    process_metadata_kv, read_harmony_metadata, Candidate, CollectMetadata, HarmonyMetadata,
    ScanStep, Scanner,
};
use harmony::intern::StrIntern;
use std::path::PathBuf;
use std::rc::Rc;

fn lines_of(text: &str) -> Vec<String> {
    text.lines().map(|l| l.to_string()).collect()
}

fn chars(s: &str) -> Vec<char> {
    s.chars().collect()
}

fn preamble() -> String {
    String::from(
        "Database Name\td1\nDatabase Location\tloc1\nEvaluation Signature\tSig1\nPlate Name\tPlate7\nMeasurement\tMeasurement 1\nEvaluation\tEvaluation2\n",
    )
}

fn candidate(path: &str, text: &str) -> Candidate {
    Candidate { path: PathBuf::from(path), lines: lines_of(text) }
}

fn names(md: &HarmonyMetadata) -> Vec<String> {
    md.headers.iter().map(|h| h.to_string()).collect()
}

#[test]
fn a_complete_file_gives_its_record() {
    let text = preamble() + "Population\tTreated\nUnknown Key\twhatever\n\n[Data]\n\nName\tScore\nAnn\t1\n";
    let found = collect_harmony_datafiles(&vec![candidate("dir/PlateResults.txt", &text)]);
    assert_eq!(found.len(), 1);
    let md = &found[0];
    assert_eq!(md.path, PathBuf::from("dir/PlateResults.txt"));
    assert_eq!(md.db_name.as_str(), "d1");
    assert_eq!(md.db_location.as_str(), "loc1");
    assert_eq!(md.eval_sig, "Sig1");
    assert_eq!(md.plate_name, "Plate7");
    assert_eq!(md.measurement, 1);
    assert_eq!(md.evaluation, 2);
    assert_eq!(md.population.as_ref().map(|p| p.as_str()), Some("Treated"));
    assert_eq!(names(md), vec!["Name", "Score"]);
    assert_eq!(md.data_start, 12);
}

#[test]
fn the_population_is_optional() {
    let text = preamble() + "[Data]\nName\nAnn\n";
    let found = collect_harmony_datafiles(&vec![candidate("a.txt", &text)]);
    assert_eq!(found.len(), 1);
    assert!(found[0].population.is_none());
    assert_eq!(found[0].data_start, 8);
}

#[test]
fn database_link_stands_for_the_location() {
    let text = "Database Name\td\nDatabase Link\thttp://x\nEvaluation Signature\ts\nPlate Name\tp\nMeasurement\tM 3\nEvaluation\tEvaluation4\n[Data]\nA\n";
    let found = collect_harmony_datafiles(&vec![candidate("a.txt", text)]);
    assert_eq!(found.len(), 1);
    assert_eq!(found[0].db_location.as_str(), "http://x");
    assert_eq!(found[0].measurement, 3);
    assert_eq!(found[0].evaluation, 4);
}

#[test]
fn a_file_without_plate_name_is_left_out_and_the_others_stay() {
    let good = preamble() + "[Data]\nName\tScore\nAnn\t1\n";
    let bad = "Database Name\td1\nDatabase Location\tloc1\nEvaluation Signature\tSig1\nMeasurement\tMeasurement 1\nEvaluation\tEvaluation2\n[Data]\nName\tScore\nAnn\t1\n";
    let other = preamble() + "Population\tCells\n[Data]\nName\tAge\nBob\t5\n";
    let found = collect_harmony_datafiles(&vec![
        candidate("1.txt", &good),
        candidate("2.txt", bad),
        candidate("3.txt", &other),
    ]);
    assert_eq!(found.len(), 2);
    assert_eq!(found[0].path, PathBuf::from("1.txt"));
    assert_eq!(found[1].path, PathBuf::from("3.txt"));
    assert_eq!(names(&found[1]), vec!["Name", "Age"]);
}

#[test]
fn each_required_field_is_required() {
    let keys = [
        "Database Name\td1\n",
        "Database Location\tloc1\n",
        "Evaluation Signature\tSig1\n",
        "Plate Name\tPlate7\n",
        "Measurement\tMeasurement 1\n",
        "Evaluation\tEvaluation2\n",
    ];
    for missing in 0..keys.len() {
        let mut text = String::new();
        for (k, line) in keys.iter().enumerate() {
            if k != missing {
                text.push_str(line);
            }
        }
        text.push_str("[Data]\nName\nAnn\n");
        let found = collect_harmony_datafiles(&vec![candidate("a.txt", &text)]);
        assert_eq!(found.len(), 0, "without {:?}", keys[missing]);
    }
}

#[test]
fn a_file_without_data_section_or_header_row_is_left_out() {
    let no_sentinel = preamble() + "Name\tScore\nAnn\t1\n";
    let no_header = preamble() + "[Data]\n\n  \n";
    let empty = "";
    let found = collect_harmony_datafiles(&vec![
        candidate("a.txt", &no_sentinel),
        candidate("b.txt", &no_header),
        candidate("c.txt", empty),
    ]);
    assert_eq!(found.len(), 0);
}

#[test]
fn a_preamble_line_without_tab_rejects_the_file() {
    let text = String::from("PerkinElmer export\n") + &preamble() + "[Data]\nName\nAnn\n";
    let mut interner = StrIntern::new();
    assert!(read_harmony_metadata(&lines_of(&text), &mut interner).is_none());
    assert_eq!(collect_harmony_datafiles(&vec![candidate("a.txt", &text)]).len(), 0);
}

#[test]
fn a_later_value_replaces_an_earlier_one() {
    let text = preamble() + "Plate Name\tPlate8\nMeasurement\tbroken\n[Data]\nName\n";
    let mut interner = StrIntern::new();
    let store = read_harmony_metadata(&lines_of(&text), &mut interner).unwrap();
    assert_eq!(store.plate_name.as_deref(), Some("Plate8"));
    assert_eq!(store.measurement, None);
    assert!(store.finalize(PathBuf::from("a.txt")).is_none());
}

#[test]
fn lines_are_trimmed_before_they_are_read() {
    let text = "  Database Name\td1  \n\tDatabase Location\tloc1\nEvaluation Signature\tSig1\r\nPlate Name\tPlate7\nMeasurement\tMeasurement 1\nEvaluation\tEvaluation2\n  [Data]  \n  Name\tScore \r\n";
    let found = collect_harmony_datafiles(&vec![candidate("a.txt", text)]);
    assert_eq!(found.len(), 1);
    assert_eq!(found[0].db_name.as_str(), "d1");
    assert_eq!(names(&found[0]), vec!["Name", "Score"]);
    assert_eq!(found[0].data_start, 8);
}

#[test]
fn the_data_start_is_the_line_after_the_header_row_however_long_the_preamble() {
    let mut text = preamble();
    for n in 0..400 {
        text.push_str(&format!("Note {}\tx\n", n));
    }
    text.push_str("[Data]\nName\nAnn\n");
    let found = collect_harmony_datafiles(&vec![candidate("a.txt", &text)]);
    assert_eq!(found.len(), 1);
    assert_eq!(found[0].data_start, 408);
}

#[test]
fn the_scan_stops_at_the_header_row() {
    let mut scanner = Scanner::new();
    let mut interner = StrIntern::new();
    let text = preamble() + "[Data]\nName\tScore\n";
    let mut last = ScanStep::Continue;
    for (i, line) in text.lines().enumerate() {
        assert_eq!(last, ScanStep::Continue);
        last = scanner.feed(i, line, &mut interner);
    }
    assert_eq!(last, ScanStep::Finished);
    assert!(scanner.into_data);
    let md = scanner.finish(PathBuf::from("x")).unwrap();
    assert_eq!(md.data_start, 8);
    assert_eq!(names(&md), vec!["Name", "Score"]);
}

#[test]
fn feed_reports_what_a_line_means() {
    let mut scanner = Scanner::new();
    let mut interner = StrIntern::new();
    assert_eq!(scanner.feed(0, "", &mut interner), ScanStep::Continue);
    assert_eq!(scanner.feed(1, "Key\tvalue", &mut interner), ScanStep::Continue);
    assert_eq!(scanner.feed(2, "no tab here", &mut interner), ScanStep::Rejected);
    assert_eq!(scanner.feed(3, "Key\t", &mut interner), ScanStep::Rejected);
    assert!(!scanner.into_data);
    assert_eq!(scanner.feed(4, "[Data]", &mut interner), ScanStep::Continue);
    assert!(scanner.into_data);
    assert_eq!(scanner.feed(5, "[Data]", &mut interner), ScanStep::Continue);
    assert_eq!(scanner.feed(6, "   ", &mut interner), ScanStep::Continue);
    assert_eq!(scanner.feed(7, "single", &mut interner), ScanStep::Finished);
    assert_eq!(scanner.store.data_start, Some(8));
    let headers: Vec<String> =
        scanner.store.headers.as_ref().unwrap().iter().map(|h| h.to_string()).collect();
    assert_eq!(headers, vec!["single"]);
}

#[test]
fn process_metadata_kv_fills_the_field_of_its_key() {
    let mut interner = StrIntern::new();
    let mut store = CollectMetadata::new();
    assert_eq!(process_metadata_kv("Database Name\tdb", &mut interner, &mut store), Some(()));
    assert_eq!(process_metadata_kv("Database Location\tloc", &mut interner, &mut store), Some(()));
    assert_eq!(process_metadata_kv("Evaluation Signature\tsig", &mut interner, &mut store), Some(()));
    assert_eq!(process_metadata_kv("Plate Name\tplate", &mut interner, &mut store), Some(()));
    assert_eq!(process_metadata_kv("Measurement\tMeasurement 12", &mut interner, &mut store), Some(()));
    assert_eq!(process_metadata_kv("Evaluation\tEvaluation34", &mut interner, &mut store), Some(()));
    assert_eq!(process_metadata_kv("Population\tpop\tignored", &mut interner, &mut store), Some(()));
    assert_eq!(process_metadata_kv("Something Else\tx", &mut interner, &mut store), Some(()));
    assert_eq!(process_metadata_kv("Plate Name", &mut interner, &mut store), None);
    assert_eq!(store.db_name.as_ref().map(|s| s.as_str()), Some("db"));
    assert_eq!(store.db_location.as_ref().map(|s| s.as_str()), Some("loc"));
    assert_eq!(store.eval_sig.as_deref(), Some("sig"));
    assert_eq!(store.plate_name.as_deref(), Some("plate"));
    assert_eq!(store.measurement, Some(12));
    assert_eq!(store.evaluation, Some(34));
    assert_eq!(store.population.as_ref().map(|s| s.as_str()), Some("pop"));
    assert!(store.headers.is_none());
    assert!(store.data_start.is_none());
}

#[test]
fn measurement_is_the_integer_in_the_second_piece() {
    assert_eq!(parse_measurement(&chars("Measurement 1")), Some(1));
    assert_eq!(parse_measurement(&chars("x 25 y")), Some(25));
    assert_eq!(parse_measurement(&chars(" 7")), Some(7));
    assert_eq!(parse_measurement(&chars("Measurement1")), None);
    assert_eq!(parse_measurement(&chars("Measurement  1")), None);
    assert_eq!(parse_measurement(&chars("Measurement one")), None);
    assert_eq!(parse_measurement(&chars("")), None);
}

#[test]
fn evaluation_is_the_integer_behind_ten_characters() {
    assert_eq!(parse_evaluation(&chars("Evaluation2")), Some(2));
    assert_eq!(parse_evaluation(&chars("0123456789123")), Some(123));
    assert_eq!(parse_evaluation(&chars("ÄÖÜäöüßàéî42")), Some(42));
    assert_eq!(parse_evaluation(&chars("EvaluationXX2")), None);
    assert_eq!(parse_evaluation(&chars("Evaluation")), None);
    assert_eq!(parse_evaluation(&chars("Eval2")), None);
    assert_eq!(parse_evaluation(&chars("")), None);
}

#[test]
fn strings_of_a_batch_are_shared() {
    let one = preamble() + "Population\tCells\n[Data]\nName\tScore\n";
    let two = preamble() + "Population\tCells\n[Data]\nScore\tName\n";
    let found = collect_harmony_datafiles(&vec![candidate("1.txt", &one), candidate("2.txt", &two)]);
    assert_eq!(found.len(), 2);
    assert!(Rc::ptr_eq(&found[0].db_name, &found[1].db_name));
    assert!(Rc::ptr_eq(&found[0].db_location, &found[1].db_location));
    assert!(Rc::ptr_eq(found[0].population.as_ref().unwrap(), found[1].population.as_ref().unwrap()));
    assert!(Rc::ptr_eq(&found[0].headers[0], &found[1].headers[1]));
    assert!(Rc::ptr_eq(&found[0].headers[1], &found[1].headers[0]));
}

#[test]
fn a_copy_of_a_record_equals_it() {
    let text = preamble() + "Population\tCells\n[Data]\nName\tScore\n";
    let found = collect_harmony_datafiles(&vec![candidate("1.txt", &text)]);
    let copy = found[0].clone();
    assert_eq!(copy.path, found[0].path);
    assert_eq!(copy.plate_name, "Plate7");
    assert_eq!(copy.eval_sig, "Sig1");
    assert_eq!(copy.measurement, 1);
    assert_eq!(copy.evaluation, 2);
    assert_eq!(copy.data_start, found[0].data_start);
    assert_eq!(names(&copy), vec!["Name", "Score"]);
    assert!(Rc::ptr_eq(&copy.db_name, &found[0].db_name));
    assert!(Rc::ptr_eq(&copy.headers[1], &found[0].headers[1]));
}

#[test]
fn no_candidates_give_no_records() {
    assert_eq!(collect_harmony_datafiles(&Vec::new()).len(), 0);
}

#[test]
fn possible_export_files_are_told_by_their_name() {
    assert!(is_possible_harmony(true, Some("txt"), Some("PlateResults")));
    assert!(is_possible_harmony(true, Some("txt"), Some("Objects_Population - Nuclei")));
    assert!(is_possible_harmony(true, Some("txt"), Some("Objects_Population")));
    assert!(!is_possible_harmony(false, Some("txt"), Some("PlateResults")));
    assert!(!is_possible_harmony(true, Some("csv"), Some("PlateResults")));
    assert!(!is_possible_harmony(true, Some("TXT"), Some("PlateResults")));
    assert!(!is_possible_harmony(true, None, Some("PlateResults")));
    assert!(!is_possible_harmony(true, Some("txt"), None));
    assert!(!is_possible_harmony(true, Some("txt"), Some("PlateResults2")));
    assert!(!is_possible_harmony(true, Some("txt"), Some("Objects")));
}

#[test]
fn a_default_store_is_empty() {
    let store = CollectMetadata::default();
    assert!(store.db_name.is_none() && store.db_location.is_none());
    assert!(store.eval_sig.is_none() && store.plate_name.is_none());
    assert!(store.measurement.is_none() && store.evaluation.is_none());
    assert!(store.population.is_none() && store.headers.is_none() && store.data_start.is_none());
    assert!(store.finalize(PathBuf::from("x")).is_none());
}
