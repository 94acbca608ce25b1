//! The record that describes one export file, and the scanner that reads it
//! from the file's preamble and header row.

use std::path::PathBuf;
use std::rc::Rc;
use crate::intern::{share, StrIntern};
use crate::number::{parse_u32, parsed_u32};
use crate::text::{
    fields, from_chars, has_prefix, is_text, lemma_fields_nonempty, slice_chars, split,
    starts_with, to_chars, trim, trimmed,
};
use vstd::prelude::*;

verus! {

/// `std::path::PathBuf`: carried through, never looked into.
#[verifier::external_type_specification]
#[verifier::external_body]
pub struct ExPathBuf(PathBuf);

/// `PathBuf::clone` gives a path equal to the one it was called on.
pub assume_specification[ <PathBuf as Clone>::clone ](p: &PathBuf) -> (r: PathBuf)
    ensures
        r == *p,
;

/// What is known of one export file once its preamble and header row have
/// been read.
#[derive(Debug)]
pub struct HarmonyMetadata {
    pub path: PathBuf,
    pub db_name: Rc<String>,
    pub db_location: Rc<String>,
    pub eval_sig: String,
    pub plate_name: String,
    pub measurement: u32,
    pub evaluation: u32,
    pub population: Option<Rc<String>>,
    pub headers: Vec<Rc<String>>,
    /// line of first data row
    pub data_start: usize,
}

/// The mathematical content of a `HarmonyMetadata`.
pub ghost struct Record {
    pub path: PathBuf,
    pub db_name: Seq<char>,
    pub db_location: Seq<char>,
    pub eval_sig: Seq<char>,
    pub plate_name: Seq<char>,
    pub measurement: u32,
    pub evaluation: u32,
    pub population: Option<Seq<char>>,
    pub headers: Seq<Seq<char>>,
    pub data_start: nat,
}

impl View for HarmonyMetadata {
    type V = Record;

    open spec fn view(&self) -> Record {
        Record {
            path: self.path,
            db_name: self.db_name@,
            db_location: self.db_location@,
            eval_sig: self.eval_sig@,
            plate_name: self.plate_name@,
            measurement: self.measurement,
            evaluation: self.evaluation,
            population: self.population.deep_view(),
            headers: self.headers.deep_view(),
            data_start: self.data_start as nat,
        }
    }
}

impl DeepView for HarmonyMetadata {
    type V = Record;

    open spec fn deep_view(&self) -> Record {
        self@
    }
}

/// Copies of the handles in `v`, in order; the strings stay shared.
pub fn share_all(v: &Vec<Rc<String>>) -> (r: Vec<Rc<String>>)
    ensures
        r@ == v@,
{
    let mut r: Vec<Rc<String>> = Vec::new();
    let mut i: usize = 0;
    while i < v.len()
        invariant
            i <= v.len(),
            r@ == v@.take(i as int),
        decreases v.len() - i,
    {
        r.push(share(&v[i]));
        proof {
            assert(v@.take(i + 1) =~= v@.take(i as int).push(v@[i as int]));
        }
        i += 1;
    }
    proof {
        assert(v@.take(v.len() as int) =~= v@);
    }
    r
}

impl Clone for HarmonyMetadata {
    fn clone(&self) -> (r: Self)
        ensures
            r@ == self@,
    {
        HarmonyMetadata {
            path: self.path.clone(),
            db_name: share(&self.db_name),
            db_location: share(&self.db_location),
            eval_sig: self.eval_sig.clone(),
            plate_name: self.plate_name.clone(),
            measurement: self.measurement,
            evaluation: self.evaluation,
            population: match &self.population {
                Some(p) => Some(share(p)),
                None => None,
            },
            headers: share_all(&self.headers),
            data_start: self.data_start,
        }
    }
}

/// What has been read of a file so far; every field starts out absent.
#[derive(Debug)]
pub struct CollectMetadata {
    pub db_name: Option<Rc<String>>,
    pub db_location: Option<Rc<String>>,
    pub eval_sig: Option<String>,
    pub plate_name: Option<String>,
    pub measurement: Option<u32>,
    pub evaluation: Option<u32>,
    pub population: Option<Rc<String>>,
    pub headers: Option<Vec<Rc<String>>>,
    pub data_start: Option<usize>,
}

/// The mathematical content of a `CollectMetadata`.
pub ghost struct Fields {
    pub db_name: Option<Seq<char>>,
    pub db_location: Option<Seq<char>>,
    pub eval_sig: Option<Seq<char>>,
    pub plate_name: Option<Seq<char>>,
    pub measurement: Option<u32>,
    pub evaluation: Option<u32>,
    pub population: Option<Seq<char>>,
    pub headers: Option<Seq<Seq<char>>>,
    pub data_start: Option<nat>,
}

impl View for CollectMetadata {
    type V = Fields;

    open spec fn view(&self) -> Fields {
        Fields {
            db_name: self.db_name.deep_view(),
            db_location: self.db_location.deep_view(),
            eval_sig: self.eval_sig.deep_view(),
            plate_name: self.plate_name.deep_view(),
            measurement: self.measurement,
            evaluation: self.evaluation,
            population: self.population.deep_view(),
            headers: self.headers.deep_view(),
            data_start: match self.data_start {
                Some(n) => Some(n as nat),
                None => None,
            },
        }
    }
}

/// Nothing read yet.
pub open spec fn no_fields() -> Fields {
    Fields {
        db_name: None,
        db_location: None,
        eval_sig: None,
        plate_name: None,
        measurement: None,
        evaluation: None,
        population: None,
        headers: None,
        data_start: None,
    }
}

/// The measurement that a `Measurement` value holds: the integer in its
/// second piece, the value being split at single spaces.
pub open spec fn measurement_of(value: Seq<char>) -> Option<u32> {
    let parts = fields(value, ' ');
    if parts.len() >= 2 {
        parsed_u32(parts[1])
    } else {
        None
    }
}

/// The evaluation that an `Evaluation` value holds: the integer that
/// follows its first ten characters.
pub open spec fn evaluation_of(value: Seq<char>) -> Option<u32> {
    if value.len() >= 10 {
        parsed_u32(value.skip(10))
    } else {
        None
    }
}

/// The fields after a preamble line with key `key` and value `value`. A key
/// that is not known changes nothing.
pub open spec fn apply_kv(f: Fields, key: Seq<char>, value: Seq<char>) -> Fields {
    if key == "Database Name"@ {
        Fields { db_name: Some(value), ..f }
    } else if key == "Database Location"@ || key == "Database Link"@ {
        Fields { db_location: Some(value), ..f }
    } else if key == "Evaluation Signature"@ {
        Fields { eval_sig: Some(value), ..f }
    } else if key == "Plate Name"@ {
        Fields { plate_name: Some(value), ..f }
    } else if key == "Measurement"@ {
        Fields { measurement: measurement_of(value), ..f }
    } else if key == "Evaluation"@ {
        Fields { evaluation: evaluation_of(value), ..f }
    } else if key == "Population"@ {
        Fields { population: Some(value), ..f }
    } else {
        f
    }
}

/// Whether the value under `key` is kept as a shared string.
pub open spec fn is_interned_key(key: Seq<char>) -> bool {
    ||| key == "Database Name"@
    ||| key == "Database Location"@
    ||| key == "Database Link"@
    ||| key == "Population"@
}

/// The keys of the preamble are different texts.
pub proof fn lemma_keys_distinct()
    ensures
        "Population"@ != "Evaluation Signature"@,
        "Population"@ != "Plate Name"@,
        "Population"@ != "Measurement"@,
        "Population"@ != "Evaluation"@,
        "Population"@ != "Database Name"@,
        "Population"@ != "Database Location"@,
        "Population"@ != "Database Link"@,
        "Plate Name"@ != "Database Name"@,
        "Plate Name"@ != "Database Location"@,
        "Plate Name"@ != "Database Link"@,
        "Plate Name"@ != "Evaluation Signature"@,
        "Plate Name"@ != "Measurement"@,
        "Plate Name"@ != "Evaluation"@,
{
    reveal_strlit("Population");
    reveal_strlit("Evaluation Signature");
    reveal_strlit("Plate Name");
    reveal_strlit("Measurement");
    reveal_strlit("Evaluation");
    reveal_strlit("Database Name");
    reveal_strlit("Database Location");
    reveal_strlit("Database Link");
    assert("Population"@[1] != "Plate Name"@[1]);
    assert("Population"@[0] != "Evaluation"@[0]);
    assert("Population"@[0] != "Database Name"@[0]);
    assert("Population"@[0] != "Database Location"@[0]);
    assert("Population"@[0] != "Database Link"@[0]);
    assert("Population"@[0] != "Evaluation Signature"@[0]);
    assert("Population"@[0] != "Measurement"@[0]);
    assert("Plate Name"@[0] != "Evaluation"@[0]);
    assert("Plate Name"@[0] != "Database Name"@[0]);
    assert("Plate Name"@[0] != "Database Location"@[0]);
    assert("Plate Name"@[0] != "Database Link"@[0]);
    assert("Plate Name"@[0] != "Evaluation Signature"@[0]);
    assert("Plate Name"@[0] != "Measurement"@[0]);
}

/// The fields after the preamble line `line`, which holds a key, a tab and
/// a value; a line without a tab is no preamble line.
pub open spec fn kv_step(f: Fields, line: Seq<char>) -> Option<Fields> {
    let parts = fields(line, '\t');
    if parts.len() >= 2 {
        Some(apply_kv(f, parts[0], parts[1]))
    } else {
        None
    }
}

/// The strings that reading the preamble line `line` interns.
pub open spec fn kv_interned(line: Seq<char>) -> Set<Seq<char>> {
    let parts = fields(line, '\t');
    if parts.len() >= 2 && is_interned_key(parts[0]) {
        set![parts[1]]
    } else {
        Set::empty()
    }
}

/// The record that complete fields make for the file at `path`. Fields that
/// lack anything but the population make none.
pub open spec fn complete(f: Fields, path: PathBuf) -> Option<Record> {
    if f.db_name is Some && f.db_location is Some && f.eval_sig is Some && f.plate_name is Some
        && f.measurement is Some && f.evaluation is Some && f.headers is Some && f.data_start
        is Some {
        Some(
            Record {
                path,
                db_name: f.db_name->0,
                db_location: f.db_location->0,
                eval_sig: f.eval_sig->0,
                plate_name: f.plate_name->0,
                measurement: f.measurement->0,
                evaluation: f.evaluation->0,
                population: f.population,
                headers: f.headers->0,
                data_start: f.data_start->0,
            },
        )
    } else {
        None
    }
}

impl CollectMetadata {
    /// Nothing read yet.
    pub fn new() -> (r: Self)
        ensures
            r@ == no_fields(),
    {
        CollectMetadata {
            db_name: None,
            db_location: None,
            eval_sig: None,
            plate_name: None,
            measurement: None,
            evaluation: None,
            population: None,
            headers: None,
            data_start: None,
        }
    }

    /// The record for the file at `path`, if every required field was read.
    pub fn finalize(self, path: PathBuf) -> (r: Option<HarmonyMetadata>)
        ensures
            r.deep_view() == complete(self@, path),
    {
        let s = self;
        let db_name = match s.db_name {
            Some(v) => v,
            None => {
                return None;
            },
        };
        let db_location = match s.db_location {
            Some(v) => v,
            None => {
                return None;
            },
        };
        let eval_sig = match s.eval_sig {
            Some(v) => v,
            None => {
                return None;
            },
        };
        let plate_name = match s.plate_name {
            Some(v) => v,
            None => {
                return None;
            },
        };
        let measurement = match s.measurement {
            Some(v) => v,
            None => {
                return None;
            },
        };
        let evaluation = match s.evaluation {
            Some(v) => v,
            None => {
                return None;
            },
        };
        let headers = match s.headers {
            Some(v) => v,
            None => {
                return None;
            },
        };
        let data_start = match s.data_start {
            Some(v) => v,
            None => {
                return None;
            },
        };
        Some(
            HarmonyMetadata {
                path,
                db_name,
                db_location,
                eval_sig,
                plate_name,
                measurement,
                evaluation,
                population: s.population,
                headers,
                data_start,
            },
        )
    }
}

impl Default for CollectMetadata {
    fn default() -> (r: Self)
        ensures
            r@ == no_fields(),
    {
        CollectMetadata::new()
    }
}

/// The measurement that a `Measurement` value holds.
pub fn parse_measurement(value: &Vec<char>) -> (r: Option<u32>)
    ensures
        r == measurement_of(value@),
{
    let parts = split(value, ' ');
    if parts.len() >= 2 {
        proof {
            assert(parts.deep_view()[1] =~= parts[1]@);
        }
        parse_u32(&parts[1])
    } else {
        None
    }
}

/// The evaluation that an `Evaluation` value holds.
pub fn parse_evaluation(value: &Vec<char>) -> (r: Option<u32>)
    ensures
        r == evaluation_of(value@),
{
    if value.len() >= 10 {
        let rest = slice_chars(value, 10, value.len());
        proof {
            assert(value@.subrange(10, value.len() as int) =~= value@.skip(10));
        }
        parse_u32(&rest)
    } else {
        None
    }
}

/// Reads one preamble line, a key and a value with a tab between them, into
/// `store`. A line without a tab is refused and changes nothing.
pub fn process_metadata_kv(line: &str, interner: &mut StrIntern, store: &mut CollectMetadata) -> (r:
    Option<()>)
    ensures
        match kv_step(old(store)@, line@) {
            Some(f) => r is Some && final(store)@ == f,
            None => r is None && final(store)@ == old(store)@,
        },
        final(interner)@ == old(interner)@.union(kv_interned(line@)),
{
    let parts = split(&to_chars(line), '\t');
    if parts.len() < 2 {
        proof {
            assert(interner@.union(Set::empty()) =~= interner@);
        }
        return None;
    }
    let key = &parts[0];
    let value = &parts[1];
    let ghost before = interner@;
    proof {
        assert(parts.deep_view()[0] =~= key@);
        assert(parts.deep_view()[1] =~= value@);
        assert(before.union(Set::empty()) =~= before);
        assert(before.union(set![value@]) =~= before.insert(value@));
    }
    // store the values into the temp struct
    if is_text(key, "Database Name") {
        store.db_name = Some(interner.get(from_chars(value).as_str()));
    } else if is_text(key, "Database Location") || is_text(key, "Database Link") {
        store.db_location = Some(interner.get(from_chars(value).as_str()));
    } else if is_text(key, "Evaluation Signature") {
        store.eval_sig = Some(from_chars(value));
    } else if is_text(key, "Plate Name") {
        store.plate_name = Some(from_chars(value));
    } else if is_text(key, "Measurement") {
        store.measurement = parse_measurement(value);
    } else if is_text(key, "Evaluation") {
        store.evaluation = parse_evaluation(value);
    } else if is_text(key, "Population") {
        store.population = Some(interner.get(from_chars(value).as_str()));
    }
    proof {
        lemma_keys_distinct();
        if is_interned_key(key@) {
            assert(interner@ == before.insert(value@));
        } else {
            assert(interner@ == before);
        }
    }
    Some(())
}

/// What a line means for the scan of its file.
#[derive(Debug, Clone, Copy, PartialEq, Eq, Structural)]
pub enum ScanStep {
    /// The scan goes on with the next line.
    Continue,
    /// The line was the header row: the scan is complete.
    Finished,
    /// The line is no preamble line: the file is no export file.
    Rejected,
}

/// The scan of one file: what has been read, and whether the `[Data]` line
/// has been passed.
#[derive(Debug)]
pub struct Scanner {
    pub store: CollectMetadata,
    pub into_data: bool,
}

/// The mathematical content of a `Scanner`.
pub ghost struct ScanState {
    pub fields: Fields,
    pub into_data: bool,
}

impl View for Scanner {
    type V = ScanState;

    open spec fn view(&self) -> ScanState {
        ScanState { fields: self.store@, into_data: self.into_data }
    }
}

/// The state in which the scan of a file begins.
pub open spec fn scan_start() -> ScanState {
    ScanState { fields: no_fields(), into_data: false }
}

/// What the line `raw`, which is line `index` of its file, means for a scan
/// in state `st`, and the state after it. The line is trimmed first. The
/// line `[Data]` ends the preamble and a blank line is skipped. Any other
/// line is a preamble line before `[Data]`, and behind it the header row,
/// which ends the scan; the data begin on the line after the header row.
pub open spec fn scan_line(st: ScanState, index: nat, raw: Seq<char>) -> (ScanStep, ScanState) {
    let line = trimmed(raw);
    if line == "[Data]"@ {
        (ScanStep::Continue, ScanState { into_data: true, ..st })
    } else if line.len() == 0 {
        (ScanStep::Continue, st)
    } else if !st.into_data {
        match kv_step(st.fields, line) {
            Some(f) => (ScanStep::Continue, ScanState { fields: f, ..st }),
            None => (ScanStep::Rejected, st),
        }
    } else {
        (
            ScanStep::Finished,
            ScanState {
                fields: Fields {
                    headers: Some(fields(line, '\t')),
                    data_start: Some(index + 1),
                    ..st.fields
                },
                ..st
            },
        )
    }
}

/// The strings that reading the line `raw` in state `st` interns: the
/// interned values of a preamble line, and every name of the header row.
pub open spec fn line_interned(st: ScanState, raw: Seq<char>) -> Set<Seq<char>> {
    let line = trimmed(raw);
    if line == "[Data]"@ || line.len() == 0 {
        Set::empty()
    } else if !st.into_data {
        kv_interned(line)
    } else {
        fields(line, '\t').to_set()
    }
}

/// What a scan in state `st` reads from the lines from `i` on: the fields
/// at the header row or at the end of the lines, or nothing if a line is
/// refused on the way.
pub open spec fn scan_from(st: ScanState, lines: Seq<Seq<char>>, i: int) -> Option<Fields>
    decreases lines.len() - i,
{
    if i < 0 || i >= lines.len() {
        Some(st.fields)
    } else {
        let (step, next) = scan_line(st, i as nat, lines[i]);
        match step {
            ScanStep::Continue => scan_from(next, lines, i + 1),
            ScanStep::Finished => Some(next.fields),
            ScanStep::Rejected => None,
        }
    }
}

/// The strings that a scan in state `st` interns on the lines from `i` on.
pub open spec fn scan_interned(st: ScanState, lines: Seq<Seq<char>>, i: int) -> Set<Seq<char>>
    decreases lines.len() - i,
{
    if i < 0 || i >= lines.len() {
        Set::empty()
    } else {
        let (step, next) = scan_line(st, i as nat, lines[i]);
        let here = line_interned(st, lines[i]);
        match step {
            ScanStep::Continue => here.union(scan_interned(next, lines, i + 1)),
            ScanStep::Finished => here,
            ScanStep::Rejected => here,
        }
    }
}

/// What a scan reads from the lines of a file.
pub open spec fn scan(lines: Seq<Seq<char>>) -> Option<Fields> {
    scan_from(scan_start(), lines, 0)
}

/// The record of the file at `path` with lines `lines`, if it is an export
/// file.
pub open spec fn scanned(path: PathBuf, lines: Seq<Seq<char>>) -> Option<Record> {
    match scan(lines) {
        Some(f) => complete(f, path),
        None => None,
    }
}

/// Interns every name of `names`, in order.
fn intern_all(names: &Vec<Vec<char>>, interner: &mut StrIntern) -> (r: Vec<Rc<String>>)
    ensures
        r.deep_view() == names.deep_view(),
        final(interner)@ == old(interner)@.union(names.deep_view().to_set()),
{
    let ghost all = names.deep_view();
    let ghost before = interner@;
    let mut hdrs: Vec<Rc<String>> = Vec::new();
    let mut j: usize = 0;
    proof {
        assert(all.take(0) =~= Seq::<Seq<char>>::empty());
        assert(hdrs.deep_view() =~= all.take(0));
        assert(before.union(all.take(0).to_set()) =~= before);
    }
    while j < names.len()
        invariant
            j <= names.len(),
            all == names.deep_view(),
            hdrs.deep_view() == all.take(j as int),
            interner@ == before.union(all.take(j as int).to_set()),
        decreases names.len() - j,
    {
        let ghost done = hdrs.deep_view();
        let name = from_chars(&names[j]);
        let handle = interner.get(name.as_str());
        hdrs.push(handle);
        proof {
            let shorter = all.take(j as int);
            let longer = all.take(j + 1);
            assert(all[j as int] =~= names[j as int]@);
            assert(longer =~= shorter.push(all[j as int]));
            assert(hdrs.deep_view() =~= done.push(all[j as int]));
            assert(longer.to_set() =~= shorter.to_set().insert(all[j as int])) by {
                assert forall|x: Seq<char>| longer.to_set().contains(x) <==> shorter.to_set().insert(
                    all[j as int],
                ).contains(x) by {
                    if longer.contains(x) {
                        let k = choose|k: int| 0 <= k < longer.len() && longer[k] == x;
                        if k < j {
                            assert(shorter[k] == x);
                        }
                    }
                    if shorter.contains(x) {
                        let k = choose|k: int| 0 <= k < shorter.len() && shorter[k] == x;
                        assert(longer[k] == x);
                    }
                    assert(longer[j as int] == all[j as int]);
                }
            }
            assert(interner@ =~= before.union(longer.to_set()));
        }
        j += 1;
    }
    proof {
        assert(all.take(names.len() as int) =~= all);
    }
    hdrs
}

impl Scanner {
    /// A scan that has read nothing.
    pub fn new() -> (r: Self)
        ensures
            r@ == scan_start(),
    {
        Scanner { store: CollectMetadata::new(), into_data: false }
    }

    /// Takes line `index` of the file, `line`, into the scan.
    pub fn feed(&mut self, index: usize, line: &str, interner: &mut StrIntern) -> (step: ScanStep)
        requires
            index < usize::MAX,
        ensures
            (step, final(self)@) == scan_line(old(self)@, index as nat, line@),
            final(interner)@ == old(interner)@.union(line_interned(old(self)@, line@)),
    {
        let chars = trim(&to_chars(line));
        proof {
            assert(interner@.union(Set::empty()) =~= interner@);
        }
        // after a [Data] line, read until the headers
        if is_text(&chars, "[Data]") {
            self.into_data = true;
            ScanStep::Continue
        } else if chars.len() == 0 {
            ScanStep::Continue
        } else if !self.into_data {
            let text = from_chars(&chars);
            match process_metadata_kv(text.as_str(), interner, &mut self.store) {
                Some(_) => ScanStep::Continue,
                None => ScanStep::Rejected,
            }
        } else {
            // collect header row
            let names = split(&chars, '\t');
            let hdrs = intern_all(&names, interner);
            self.store.headers = Some(hdrs);
            // the data starts on the next row
            self.store.data_start = Some(index + 1);
            ScanStep::Finished
        }
    }

    /// The record for the file at `path`, if the scan has read every
    /// required field.
    pub fn finish(self, path: PathBuf) -> (r: Option<HarmonyMetadata>)
        ensures
            r.deep_view() == complete(self@.fields, path),
    {
        self.store.finalize(path)
    }
}

/// Scans the lines of a file. The scan ends at the header row, or with the
/// last line; it gives nothing if a line before `[Data]` is no preamble
/// line.
pub fn read_harmony_metadata(lines: &Vec<String>, interner: &mut StrIntern) -> (r: Option<
    CollectMetadata,
>)
    ensures
        match r {
            Some(store) => scan(lines.deep_view()) == Some(store@),
            None => scan(lines.deep_view()) is None,
        },
        final(interner)@ == old(interner)@.union(scan_interned(scan_start(), lines.deep_view(), 0)),
{
    let ghost all = lines.deep_view();
    let ghost before = interner@;
    let mut scanner = Scanner::new();
    let mut i: usize = 0;
    let ghost mut seen: Set<Seq<char>> = Set::empty();
    proof {
        assert(before.union(seen) =~= before);
        assert(seen.union(scan_interned(scanner@, all, 0)) =~= scan_interned(scan_start(), all, 0));
    }
    while i < lines.len()
        invariant
            i <= lines.len(),
            all == lines.deep_view(),
            before == old(interner)@,
            scan(all) == scan_from(scanner@, all, i as int),
            interner@ == before.union(seen),
            seen.union(scan_interned(scanner@, all, i as int)) == scan_interned(scan_start(), all, 0),
        decreases lines.len() - i,
    {
        let ghost st = scanner@;
        let ghost here = line_interned(st, all[i as int]);
        proof {
            assert(all[i as int] == lines[i as int]@);
        }
        let step = scanner.feed(i, lines[i].as_str(), interner);
        proof {
            assert(interner@ =~= before.union(seen.union(here)));
        }
        match step {
            ScanStep::Continue => {
                proof {
                    assert(seen.union(here).union(scan_interned(scanner@, all, i + 1))
                        =~= seen.union(scan_interned(st, all, i as int)));
                    seen = seen.union(here);
                }
            },
            ScanStep::Finished => {
                proof {
                    assert(seen.union(here) =~= scan_interned(scan_start(), all, 0));
                }
                return Some(scanner.store);
            },
            ScanStep::Rejected => {
                proof {
                    assert(seen.union(here) =~= scan_interned(scan_start(), all, 0));
                }
                return None;
            },
        }
        i += 1;
    }
    proof {
        assert(seen.union(Set::empty()) =~= seen);
    }
    Some(scanner.store)
}

/// A file that may be an export file: where it is, and its lines.
#[derive(Debug)]
pub struct Candidate {
    pub path: PathBuf,
    pub lines: Vec<String>,
}

/// The mathematical content of a `Candidate`.
pub ghost struct CandidateView {
    pub path: PathBuf,
    pub lines: Seq<Seq<char>>,
}

impl View for Candidate {
    type V = CandidateView;

    open spec fn view(&self) -> CandidateView {
        CandidateView { path: self.path, lines: self.lines.deep_view() }
    }
}

impl DeepView for Candidate {
    type V = CandidateView;

    open spec fn deep_view(&self) -> CandidateView {
        self@
    }
}

/// The records of the export files among the first `n` candidates, in the
/// order of the candidates. A candidate that is no export file leaves no
/// trace.
pub open spec fn collected(candidates: Seq<CandidateView>, n: int) -> Seq<Record>
    decreases n,
{
    if n <= 0 {
        Seq::empty()
    } else {
        let before = collected(candidates, n - 1);
        match scanned(candidates[n - 1].path, candidates[n - 1].lines) {
            Some(r) => before.push(r),
            None => before,
        }
    }
}

/// Scans every candidate and returns the records of those that are export
/// files, in the order of the candidates. Strings are shared among the
/// records of the batch.
pub fn collect_harmony_datafiles(candidates: &Vec<Candidate>) -> (r: Vec<HarmonyMetadata>)
    ensures
        r.deep_view() == collected(candidates.deep_view(), candidates.len() as int),
{
    let mut interner = StrIntern::new();
    let mut found: Vec<HarmonyMetadata> = Vec::new();
    let ghost all = candidates.deep_view();
    let mut i: usize = 0;
    proof {
        assert(found.deep_view() =~= collected(all, 0));
    }
    while i < candidates.len()
        invariant
            i <= candidates.len(),
            all == candidates.deep_view(),
            found.deep_view() == collected(all, i as int),
        decreases candidates.len() - i,
    {
        let ghost done = found.deep_view();
        proof {
            assert(all[i as int] == candidates[i as int]@);
        }
        let record = match read_harmony_metadata(&candidates[i].lines, &mut interner) {
            Some(store) => store.finalize(candidates[i].path.clone()),
            None => None,
        };
        match record {
            Some(md) => {
                found.push(md);
                proof {
                    assert(found.deep_view() =~= done.push(md@));
                }
            },
            None => {},
        }
        i += 1;
    }
    found
}

/// Whether a directory entry may be an export file, by its kind and name: a
/// file with the extension `txt` whose stem is `PlateResults` or begins with
/// `Objects_Population`.
pub open spec fn possible_harmony(
    is_file: bool,
    extension: Option<Seq<char>>,
    stem: Option<Seq<char>>,
) -> bool {
    &&& is_file
    &&& extension == Some("txt"@)
    &&& stem is Some
    &&& (stem->0 == "PlateResults"@ || starts_with(stem->0, "Objects_Population"@))
}

/// The view of a text that may be absent.
pub open spec fn text_view(t: Option<&str>) -> Option<Seq<char>> {
    match t {
        Some(s) => Some(s@),
        None => None,
    }
}

/// Whether a directory entry may be an export file, by its kind, the
/// extension of its name and the stem of its name.
pub fn is_possible_harmony(is_file: bool, extension: Option<&str>, stem: Option<&str>) -> (r: bool)
    ensures
        r == possible_harmony(is_file, text_view(extension), text_view(stem)),
{
    if !is_file {
        return false;
    }
    let named_txt = match extension {
        Some(ext) => is_text(&to_chars(ext), "txt"),
        None => false,
    };
    if !named_txt {
        return false;
    }
    match stem {
        Some(stem) => is_text(&to_chars(stem), "PlateResults") || has_prefix(
            stem,
            "Objects_Population",
        ),
        None => false,
    }
}

/// Whether the line `raw` is a preamble line with key `key`.
pub open spec fn names_key(raw: Seq<char>, key: Seq<char>) -> bool {
    let parts = fields(trimmed(raw), '\t');
    parts.len() >= 2 && parts[0] == key
}

/// A scan that has no plate name yet finds none in lines of which none
/// names the key `Plate Name`.
pub proof fn lemma_scan_without_plate_name(st: ScanState, lines: Seq<Seq<char>>, i: int)
    requires
        0 <= i,
        st.fields.plate_name is None,
        forall|k: int| i <= k < lines.len() ==> !names_key(#[trigger] lines[k], "Plate Name"@),
    ensures
        scan_from(st, lines, i) matches Some(f) ==> f.plate_name is None,
    decreases lines.len() - i,
{
    if i < lines.len() {
        assert(!names_key(lines[i], "Plate Name"@));
        let (step, next) = scan_line(st, i as nat, lines[i]);
        if step == ScanStep::Continue {
            lemma_scan_without_plate_name(next, lines, i + 1);
        }
    }
}

/// A file in which no line names the key `Plate Name` is no export file: it
/// has no record.
pub proof fn lemma_missing_plate_name_excluded(path: PathBuf, lines: Seq<Seq<char>>)
    requires
        forall|k: int| 0 <= k < lines.len() ==> !names_key(#[trigger] lines[k], "Plate Name"@),
    ensures
        scanned(path, lines) is None,
{
    lemma_scan_without_plate_name(scan_start(), lines, 0);
}

/// As long as a scan goes on it has neither header nor data start; it gets
/// both at once, at the header row.
pub proof fn lemma_scan_shape(st: ScanState, lines: Seq<Seq<char>>, i: int)
    requires
        0 <= i,
        st.fields.headers is None,
        st.fields.data_start is None,
    ensures
        scan_from(st, lines, i) matches Some(f) ==> {
            &&& f.headers is Some <==> f.data_start is Some
            &&& f.headers matches Some(h) ==> h.len() >= 1
            &&& f.data_start matches Some(d) ==> i < d <= lines.len()
        },
    decreases lines.len() - i,
{
    if i < lines.len() {
        let (step, next) = scan_line(st, i as nat, lines[i]);
        if step == ScanStep::Continue {
            lemma_scan_shape(next, lines, i + 1);
        } else if step == ScanStep::Finished {
            lemma_fields_nonempty(trimmed(lines[i]), '\t');
        }
    }
}

/// The record of an export file has at least one column, and its data begin
/// behind the header row: on a line after the first and no later than the
/// line after the last.
pub proof fn lemma_record_shape(path: PathBuf, lines: Seq<Seq<char>>)
    ensures
        scanned(path, lines) matches Some(r) ==> r.path == path && r.headers.len() >= 1 && 1
            <= r.data_start <= lines.len(),
{
    lemma_scan_shape(scan_start(), lines, 0);
}

} // verus!
