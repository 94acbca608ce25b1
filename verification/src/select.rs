//! Choosing among scanned files: grouping them by population, and the
//! per-file choices that a front end keeps.

use crate::info::{HarmonyMetadata, Record};
use crate::intern::share;
use crate::text::{is_text, to_chars};
use crate::write::CombineError;
use std::rc::Rc;
use vstd::prelude::*;

verus! {

/// The plural ending for a count of `n`: none for one, `s` otherwise.
pub fn plural(n: usize) -> (r: &'static str)
    ensures
        r@ == if n == 1 {
            ""@
        } else {
            "s"@
        },
{
    if n == 1 {
        ""
    } else {
        "s"
    }
}

/// Whether two populations are the same: both absent, or the same label.
pub fn same_population(a: &Option<Rc<String>>, b: &Option<Rc<String>>) -> (r: bool)
    ensures
        r == (a.deep_view() == b.deep_view()),
{
    match a {
        Some(x) => match b {
            Some(y) => **x == **y,
            None => false,
        },
        None => b.is_none(),
    }
}

/// The files that have population `pop`, in their order.
pub open spec fn members(files: Seq<Record>, pop: Option<Seq<char>>) -> Seq<Record>
    decreases files.len(),
{
    if files.len() == 0 {
        Seq::empty()
    } else {
        let before = members(files.drop_last(), pop);
        if files.last().population == pop {
            before.push(files.last())
        } else {
            before
        }
    }
}

/// The populations of the files, each once, in the order in which they
/// first occur.
pub open spec fn populations(files: Seq<Record>) -> Seq<Option<Seq<char>>>
    decreases files.len(),
{
    if files.len() == 0 {
        Seq::empty()
    } else {
        let before = populations(files.drop_last());
        if before.contains(files.last().population) {
            before
        } else {
            before.push(files.last().population)
        }
    }
}

/// The files of one population.
#[derive(Debug)]
pub struct PopulationGroup {
    pub population: Option<Rc<String>>,
    pub files: Vec<HarmonyMetadata>,
}

/// The mathematical content of a `PopulationGroup`.
pub ghost struct GroupView {
    pub population: Option<Seq<char>>,
    pub files: Seq<Record>,
}

impl View for PopulationGroup {
    type V = GroupView;

    open spec fn view(&self) -> GroupView {
        GroupView { population: self.population.deep_view(), files: self.files.deep_view() }
    }
}

impl DeepView for PopulationGroup {
    type V = GroupView;

    open spec fn deep_view(&self) -> GroupView {
        self@
    }
}

/// The files grouped by population: one group for each population, in the
/// order in which the populations first occur, each with its files in their
/// order.
pub open spec fn grouped(files: Seq<Record>) -> Seq<GroupView> {
    Seq::new(
        populations(files).len(),
        |k: int|
            GroupView {
                population: populations(files)[k],
                files: members(files, populations(files)[k]),
            },
    )
}

/// The populations of the files, each once, in the order of first
/// occurrence.
pub fn distinct_populations(files: &Vec<HarmonyMetadata>) -> (r: Vec<Option<Rc<String>>>)
    ensures
        r.deep_view() == populations(files.deep_view()),
{
    let ghost all = files.deep_view();
    let mut pops: Vec<Option<Rc<String>>> = Vec::new();
    let mut i: usize = 0;
    proof {
        assert(all.take(0) =~= Seq::<Record>::empty());
        assert(pops.deep_view() =~= populations(all.take(0)));
    }
    while i < files.len()
        invariant
            i <= files.len(),
            all == files.deep_view(),
            pops.deep_view() == populations(all.take(i as int)),
        decreases files.len() - i,
    {
        let ghost before = pops.deep_view();
        let pop = &files[i].population;
        let mut k: usize = 0;
        let mut known = false;
        while k < pops.len() && !known
            invariant
                k <= pops.len(),
                known ==> before.contains(pop.deep_view()),
                !known ==> forall|j: int| 0 <= j < k ==> before[j] != pop.deep_view(),
                before == pops.deep_view(),
            decreases pops.len() - k + if known { 0int } else { 1int },
        {
            if same_population(&pops[k], pop) {
                known = true;
                proof {
                    assert(before[k as int] == pop.deep_view());
                }
            } else {
                k += 1;
            }
        }
        if !known {
            let copy = match pop {
                Some(p) => Some(share(p)),
                None => None,
            };
            pops.push(copy);
            proof {
                assert(pops.deep_view() =~= before.push(pop.deep_view()));
            }
        }
        proof {
            assert(all.take(i + 1).drop_last() =~= all.take(i as int));
            assert(all.take(i + 1).last() == files[i as int]@);
        }
        i += 1;
    }
    proof {
        assert(all.take(files.len() as int) =~= all);
    }
    pops
}

/// The files that have population `pop`, in their order.
pub fn files_of_population(files: &Vec<HarmonyMetadata>, pop: &Option<Rc<String>>) -> (r: Vec<
    HarmonyMetadata,
>)
    ensures
        r.deep_view() == members(files.deep_view(), pop.deep_view()),
{
    let ghost all = files.deep_view();
    let mut found: Vec<HarmonyMetadata> = Vec::new();
    let mut i: usize = 0;
    proof {
        assert(all.take(0) =~= Seq::<Record>::empty());
        assert(found.deep_view() =~= members(all.take(0), pop.deep_view()));
    }
    while i < files.len()
        invariant
            i <= files.len(),
            all == files.deep_view(),
            found.deep_view() == members(all.take(i as int), pop.deep_view()),
        decreases files.len() - i,
    {
        let ghost before = found.deep_view();
        if same_population(&files[i].population, pop) {
            let copy = files[i].clone();
            found.push(copy);
            proof {
                assert(found.deep_view() =~= before.push(files[i as int]@));
            }
        }
        proof {
            assert(all.take(i + 1).drop_last() =~= all.take(i as int));
            assert(all.take(i + 1).last() == files[i as int]@);
        }
        i += 1;
    }
    proof {
        assert(all.take(files.len() as int) =~= all);
    }
    found
}

/// Groups the files by population, for one output per population. There
/// must be at least one file.
pub fn separate_by_pop(files: &Vec<HarmonyMetadata>) -> (r: Result<
    Vec<PopulationGroup>,
    CombineError,
>)
    ensures
        match r {
            Ok(groups) => files.len() > 0 && groups.deep_view() == grouped(files.deep_view()),
            Err(e) => files.len() == 0 && e == CombineError::NoFiles,
        },
{
    // check that at least one file was found
    if files.len() == 0 {
        return Err(CombineError::NoFiles);
    }
    let pops = distinct_populations(files);
    let ghost names = populations(files.deep_view());
    let mut groups: Vec<PopulationGroup> = Vec::new();
    let mut k: usize = 0;
    while k < pops.len()
        invariant
            k <= pops.len(),
            names == populations(files.deep_view()),
            pops.deep_view() == names,
            groups.len() == k,
            forall|j: int|
                0 <= j < k ==> (#[trigger] groups.deep_view()[j]) == (GroupView {
                    population: names[j],
                    files: members(files.deep_view(), names[j]),
                }),
        decreases pops.len() - k,
    {
        let own = files_of_population(files, &pops[k]);
        let population = match &pops[k] {
            Some(p) => Some(share(p)),
            None => None,
        };
        let ghost done = groups.deep_view();
        let group = PopulationGroup { population, files: own };
        proof {
            assert(pops.deep_view()[k as int] == pops[k as int].deep_view());
            assert(group@ == (GroupView {
                population: names[k as int],
                files: members(files.deep_view(), names[k as int]),
            }));
        }
        groups.push(group);
        proof {
            assert(groups.deep_view() =~= done.push(group@));
        }
        k += 1;
    }
    proof {
        assert(groups.deep_view() =~= grouped(files.deep_view()));
    }
    Ok(groups)
}

/// The label of a population in the name of its output file: the
/// population's label, or `WellData` for files without one.
pub open spec fn population_tag(pop: Option<Seq<char>>) -> Seq<char> {
    match pop {
        Some(label) => label,
        None => "WellData"@,
    }
}

/// The name of the output file for a population: the base name, an
/// underscore, the population's tag and the extension `.tsv`.
pub fn group_file_name(basename: &str, population: &Option<Rc<String>>) -> (r: String)
    ensures
        r@ == basename@ + "_"@ + population_tag(population.deep_view()) + ".tsv"@,
{
    let mut name = String::new();
    name.append(basename);
    name.append("_");
    match population {
        Some(p) => name.append(p.as_str()),
        None => name.append("WellData"),
    }
    name.append(".tsv");
    proof {
        assert(name@ =~= basename@ + "_"@ + population_tag(population.deep_view()) + ".tsv"@);
    }
    name
}

/// The files that carry a population label, in their order.
pub open spec fn labelled(files: Seq<Record>) -> Seq<Record>
    decreases files.len(),
{
    if files.len() == 0 {
        Seq::empty()
    } else {
        let before = labelled(files.drop_last());
        if files.last().population is Some {
            before.push(files.last())
        } else {
            before
        }
    }
}

/// The files that carry a population label, in their order.
pub fn labelled_only(files: &Vec<HarmonyMetadata>) -> (r: Vec<HarmonyMetadata>)
    ensures
        r.deep_view() == labelled(files.deep_view()),
{
    let ghost all = files.deep_view();
    let mut found: Vec<HarmonyMetadata> = Vec::new();
    let mut i: usize = 0;
    proof {
        assert(all.take(0) =~= Seq::<Record>::empty());
        assert(found.deep_view() =~= labelled(all.take(0)));
    }
    while i < files.len()
        invariant
            i <= files.len(),
            all == files.deep_view(),
            found.deep_view() == labelled(all.take(i as int)),
        decreases files.len() - i,
    {
        let ghost before = found.deep_view();
        if files[i].population.is_some() {
            let copy = files[i].clone();
            found.push(copy);
            proof {
                assert(found.deep_view() =~= before.push(files[i as int]@));
            }
        }
        proof {
            assert(all.take(i + 1).drop_last() =~= all.take(i as int));
            assert(all.take(i + 1).last() == files[i as int]@);
        }
        i += 1;
    }
    proof {
        assert(all.take(files.len() as int) =~= all);
    }
    found
}

/// The name under which a front end lists a population: its label, or
/// `Well Data` for files without one.
pub open spec fn population_name(pop: Option<Seq<char>>) -> Seq<char> {
    match pop {
        Some(label) => label,
        None => "Well Data"@,
    }
}

/// The name under which a front end lists a population.
pub fn population_label(population: &Option<Rc<String>>) -> (r: String)
    ensures
        r@ == population_name(population.deep_view()),
{
    match population {
        Some(p) => p.as_str().to_owned(),
        None => "Well Data".to_owned(),
    }
}

/// What a front end shows of one file, and whether the file is chosen for
/// combining.
#[derive(Debug)]
pub struct FileInfo {
    pub plate_name: String,
    pub measurement: u32,
    pub evaluation: u32,
    pub population: Option<Rc<String>>,
    pub chosen: bool,
}

/// The mathematical content of a `FileInfo`.
pub ghost struct Choice {
    pub plate_name: Seq<char>,
    pub measurement: u32,
    pub evaluation: u32,
    pub population: Option<Seq<char>>,
    pub chosen: bool,
}

impl View for FileInfo {
    type V = Choice;

    open spec fn view(&self) -> Choice {
        Choice {
            plate_name: self.plate_name@,
            measurement: self.measurement,
            evaluation: self.evaluation,
            population: self.population.deep_view(),
            chosen: self.chosen,
        }
    }
}

impl DeepView for FileInfo {
    type V = Choice;

    open spec fn deep_view(&self) -> Choice {
        self@
    }
}

/// What is shown of the file `md`; a file is chosen to begin with.
pub fn file_info(md: &HarmonyMetadata) -> (r: FileInfo)
    ensures
        r@ == (Choice {
            plate_name: md@.plate_name,
            measurement: md@.measurement,
            evaluation: md@.evaluation,
            population: md@.population,
            chosen: true,
        }),
{
    FileInfo {
        plate_name: md.plate_name.clone(),
        measurement: md.measurement,
        evaluation: md.evaluation,
        population: match &md.population {
            Some(p) => Some(share(p)),
            None => None,
        },
        chosen: true,
    }
}

/// Whether a file with population `population` belongs to the population
/// named `pop`. The name `Well Data` stands for the files without a label.
pub open spec fn belongs(population: Option<Seq<char>>, pop: Seq<char>) -> bool {
    if pop == "Well Data"@ {
        population is None
    } else {
        population == Some(pop)
    }
}

/// Chooses the files of the population named `pop`, and no others.
pub fn filter_population(files: &mut Vec<FileInfo>, pop: &str)
    ensures
        final(files).len() == old(files).len(),
        forall|i: int|
            0 <= i < old(files).len() ==> (#[trigger] final(files)[i])@ == (Choice {
                chosen: belongs(old(files)[i]@.population, pop@),
                ..old(files)[i]@
            }),
{
    let unlabelled = is_text(&to_chars(pop), "Well Data");
    let mut i: usize = 0;
    while i < files.len()
        invariant
            i <= files.len(),
            files.len() == old(files).len(),
            unlabelled == (pop@ == "Well Data"@),
            forall|k: int|
                0 <= k < i ==> (#[trigger] files[k])@ == (Choice {
                    chosen: belongs(old(files)[k]@.population, pop@),
                    ..old(files)[k]@
                }),
            forall|k: int| i <= k < files.len() ==> files[k] == old(files)[k],
        decreases files.len() - i,
    {
        let chosen = if unlabelled {
            files[i].population.is_none()
        } else {
            match &files[i].population {
                Some(p) => is_text(&to_chars(p.as_str()), pop),
                None => false,
            }
        };
        files[i].chosen = chosen;
        i += 1;
    }
}

/// The number of chosen files among the first `n`.
pub open spec fn chosen_count(files: Seq<Choice>, n: int) -> nat
    decreases n,
{
    if n <= 0 {
        0
    } else if files[n - 1].chosen {
        chosen_count(files, n - 1) + 1
    } else {
        chosen_count(files, n - 1)
    }
}

/// The number of chosen files.
pub fn count_included_files(files: &Vec<FileInfo>) -> (r: usize)
    ensures
        r == chosen_count(files.deep_view(), files.len() as int),
{
    let mut count: usize = 0;
    let mut i: usize = 0;
    while i < files.len()
        invariant
            i <= files.len(),
            count <= i,
            count == chosen_count(files.deep_view(), i as int),
        decreases files.len() - i,
    {
        proof {
            assert(files.deep_view()[i as int] == files[i as int]@);
        }
        if files[i].chosen {
            count += 1;
        }
        i += 1;
    }
    count
}

/// The records among the first `n` whose file is chosen, in their order.
/// Record and choice belong together by position.
pub open spec fn chosen_records(md: Seq<Record>, files: Seq<Choice>, n: int) -> Seq<Record>
    decreases n,
{
    if n <= 0 {
        Seq::empty()
    } else if files[n - 1].chosen {
        chosen_records(md, files, n - 1).push(md[n - 1])
    } else {
        chosen_records(md, files, n - 1)
    }
}

/// The number of positions that have both a record and a choice.
pub open spec fn paired(md: Seq<Record>, files: Seq<Choice>) -> int {
    if md.len() <= files.len() {
        md.len() as int
    } else {
        files.len() as int
    }
}

/// The records whose file is chosen, in their order. Record and choice
/// belong together by position; a record without a choice, or a choice
/// without a record, is passed over.
pub fn included_files(md: &Vec<HarmonyMetadata>, files: &Vec<FileInfo>) -> (r: Vec<HarmonyMetadata>)
    ensures
        r.deep_view() == chosen_records(
            md.deep_view(),
            files.deep_view(),
            paired(md.deep_view(), files.deep_view()),
        ),
{
    let n = if md.len() <= files.len() {
        md.len()
    } else {
        files.len()
    };
    let mut found: Vec<HarmonyMetadata> = Vec::new();
    let mut i: usize = 0;
    proof {
        assert(found.deep_view() =~= Seq::<Record>::empty());
    }
    while i < n
        invariant
            i <= n,
            n <= md.len(),
            n <= files.len(),
            found.deep_view() == chosen_records(md.deep_view(), files.deep_view(), i as int),
        decreases n - i,
    {
        let ghost before = found.deep_view();
        proof {
            assert(files.deep_view()[i as int] == files[i as int]@);
            assert(md.deep_view()[i as int] == md[i as int]@);
        }
        if files[i].chosen {
            let copy = md[i].clone();
            found.push(copy);
            proof {
                assert(found.deep_view() =~= before.push(md[i as int]@));
            }
        }
        i += 1;
    }
    found
}

} // verus!
