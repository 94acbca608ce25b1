use harmony::info::HarmonyMetadata;
use harmony::select::{
    count_included_files, distinct_populations, file_info, files_of_population, filter_population,
    group_file_name, included_files, labelled_only, plural, population_label, same_population,
    separate_by_pop,
    FileInfo,
};
use harmony::write::CombineError;
use std::path::PathBuf;
use std::rc::Rc;

fn name(s: &str) -> Rc<String> {
    Rc::new(s.to_string())
}

fn record(plate: &str, population: Option<&str>) -> HarmonyMetadata {
    HarmonyMetadata {
        path: PathBuf::from(format!("{}.txt", plate)),
        db_name: name("d"),
        db_location: name("l"),
        eval_sig: String::from("s"),
        plate_name: plate.to_string(),
        measurement: 2,
        evaluation: 5,
        population: population.map(name),
        headers: vec![name("a")],
        data_start: 1,
    }
}

fn plates(files: &Vec<HarmonyMetadata>) -> Vec<String> {
    files.iter().map(|f| f.plate_name.clone()).collect()
}

fn batch() -> Vec<HarmonyMetadata> {
    vec![
        record("plate_a", Some("Nuclei")),
        record("plate_b", None),
        record("plate_c", Some("Cells")),
        record("plate_d", Some("Nuclei")),
        record("plate_e", None),
        record("plate_f", Some("Well Data")),
    ]
}

fn flags(infos: &Vec<FileInfo>) -> Vec<bool> {
    infos.iter().map(|f| f.chosen).collect()
}

#[test]
fn plural_has_no_ending_for_one() {
    assert_eq!(plural(1), "");
    assert_eq!(plural(0), "s");
    assert_eq!(plural(2), "s");
    assert_eq!(plural(usize::MAX), "s");
}

#[test]
fn populations_are_compared_by_their_label() {
    assert!(same_population(&None, &None));
    assert!(same_population(&Some(name("a")), &Some(name("a"))));
    assert!(!same_population(&Some(name("a")), &Some(name("b"))));
    assert!(!same_population(&Some(name("")), &None));
    assert!(!same_population(&None, &Some(name("a"))));
}

#[test]
fn files_are_grouped_by_population_in_order_of_first_occurrence() {
    let groups = separate_by_pop(&batch()).unwrap();
    let labels: Vec<Option<String>> =
        groups.iter().map(|g| g.population.as_ref().map(|p| p.to_string())).collect();
    assert_eq!(
        labels,
        vec![Some("Nuclei".to_string()), None, Some("Cells".to_string()), Some("Well Data".to_string())]
    );
    assert_eq!(plates(&groups[0].files), vec!["plate_a", "plate_d"]);
    assert_eq!(plates(&groups[1].files), vec!["plate_b", "plate_e"]);
    assert_eq!(plates(&groups[2].files), vec!["plate_c"]);
    assert_eq!(plates(&groups[3].files), vec!["plate_f"]);
}

#[test]
fn grouping_no_files_is_refused() {
    assert_eq!(separate_by_pop(&Vec::new()).err(), Some(CombineError::NoFiles));
}

#[test]
fn the_populations_and_their_files() {
    let files = batch();
    let pops = distinct_populations(&files);
    assert_eq!(pops.len(), 4);
    assert_eq!(plates(&files_of_population(&files, &Some(name("Nuclei")))), vec!["plate_a", "plate_d"]);
    assert_eq!(plates(&files_of_population(&files, &None)), vec!["plate_b", "plate_e"]);
    assert_eq!(files_of_population(&files, &Some(name("Other"))).len(), 0);
    assert_eq!(distinct_populations(&Vec::new()).len(), 0);
}

#[test]
fn the_output_of_a_population_is_named_after_it() {
    assert_eq!(group_file_name("combined", &Some(name("Nuclei"))), "combined_Nuclei.tsv");
    assert_eq!(group_file_name("combined", &None), "combined_WellData.tsv");
    assert_eq!(group_file_name("", &Some(name(""))), "_.tsv");
}

#[test]
fn labelled_only_keeps_the_files_with_a_population() {
    assert_eq!(plates(&labelled_only(&batch())), vec!["plate_a", "plate_c", "plate_d", "plate_f"]);
    assert_eq!(labelled_only(&vec![record("p", None)]).len(), 0);
}

#[test]
fn what_is_shown_of_a_file() {
    let info = file_info(&record("plate", Some("Cells")));
    assert_eq!(info.plate_name, "plate");
    assert_eq!(info.measurement, 2);
    assert_eq!(info.evaluation, 5);
    assert_eq!(info.population.as_ref().map(|p| p.as_str()), Some("Cells"));
    assert!(info.chosen);
}

#[test]
fn filtering_chooses_the_files_of_one_population() {
    let mut infos: Vec<FileInfo> = batch().iter().map(file_info).collect();
    assert_eq!(count_included_files(&infos), 6);
    filter_population(&mut infos, "Nuclei");
    assert_eq!(flags(&infos), vec![true, false, false, true, false, false]);
    assert_eq!(count_included_files(&infos), 2);
    filter_population(&mut infos, "Well Data");
    assert_eq!(flags(&infos), vec![false, true, false, false, true, false]);
    filter_population(&mut infos, "Nobody");
    assert_eq!(count_included_files(&infos), 0);
    assert_eq!(infos[2].plate_name, "plate_c");
    assert_eq!(infos[2].population.as_ref().map(|p| p.as_str()), Some("Cells"));
}

#[test]
fn the_chosen_files_are_taken_by_position() {
    let files = batch();
    let mut infos: Vec<FileInfo> = files.iter().map(file_info).collect();
    assert_eq!(plates(&included_files(&files, &infos)), vec!["plate_a", "plate_b", "plate_c", "plate_d", "plate_e", "plate_f"]);
    infos[0].chosen = false;
    infos[4].chosen = false;
    assert_eq!(plates(&included_files(&files, &infos)), vec!["plate_b", "plate_c", "plate_d", "plate_f"]);
    infos.truncate(3);
    assert_eq!(plates(&included_files(&files, &infos)), vec!["plate_b", "plate_c"]);
    assert_eq!(included_files(&Vec::new(), &infos).len(), 0);
    assert_eq!(count_included_files(&Vec::new()), 0);
}

#[test]
fn a_population_without_label_is_listed_as_well_data() {
    assert_eq!(population_label(&None), "Well Data");
    assert_eq!(population_label(&Some(name("Nuclei"))), "Nuclei");
    assert_eq!(population_label(&Some(name(""))), "");
}
