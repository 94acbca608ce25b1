//! Writing the combined table: one header row, then every data row of every
//! file behind the fields that describe its file.

use crate::headers::{
    combine_headers, header_lists, is_column_map, is_first_index, is_reconciliation,
    lemma_reconciliation_is, reconciliation, same_names, Combined, Reconciled,
};
use crate::info::{HarmonyMetadata, Record};
use crate::number::{decimal, format_u32};
use crate::text::{
    fields, from_chars, joined, split, to_chars, trim, trimmed, write_interspersed,
};
use std::rc::Rc;
use vstd::prelude::*;

verus! {

/// The names of the columns that describe a row's file, in output order.
pub open spec fn common_names() -> Seq<Seq<char>> {
    seq![
        "Plate Name"@,
        "Measurement"@,
        "Evaluation"@,
        "Evaluation Signature"@,
        "Population"@,
    ]
}

/// The population of a file as it is written: its label, or `Well` for a
/// file without one.
pub open spec fn population_text(p: Option<Seq<char>>) -> Seq<char> {
    match p {
        Some(label) => label,
        None => "Well"@,
    }
}

/// The fields that describe a file, joined by `sep`: plate name,
/// measurement, evaluation, evaluation signature and population.
pub open spec fn common_fields(r: Record, sep: Seq<char>) -> Seq<char> {
    joined(
        seq![
            r.plate_name,
            decimal(r.measurement as nat),
            decimal(r.evaluation as nat),
            r.eval_sig,
            population_text(r.population),
        ],
        sep,
    )
}

/// The header row for data columns `columns`.
pub open spec fn header_row(columns: Seq<Seq<char>>) -> Seq<char> {
    joined(common_names(), "\t"@) + "\t"@ + joined(columns, "\t"@)
}

/// What stands in output column `c` once the first `n` cells have been
/// placed: the cell that was placed there last, or nothing.
pub open spec fn cell_at(cells: Seq<Seq<char>>, map: Seq<usize>, n: int, c: int) -> Seq<char>
    decreases n,
{
    if n <= 0 {
        Seq::empty()
    } else if map[n - 1] == c {
        cells[n - 1]
    } else {
        cell_at(cells, map, n - 1, c)
    }
}

/// How many cells of a line are placed: those that have a column in the map.
pub open spec fn placed(cells: Seq<Seq<char>>, map: Seq<usize>) -> int {
    if cells.len() <= map.len() {
        cells.len() as int
    } else {
        map.len() as int
    }
}

/// A line's cells laid out over `width` output columns: cell `k` stands in
/// column `map[k]`, and a column that gets no cell is empty.
pub open spec fn projected(cells: Seq<Seq<char>>, map: Seq<usize>, width: nat) -> Seq<Seq<char>> {
    Seq::new(width, |c: int| cell_at(cells, map, placed(cells, map), c))
}

/// The output row for one data line on the fast path: the line as it
/// stands, trimmed, behind the common fields.
pub open spec fn fast_row(common: Seq<char>, line: Seq<char>) -> Seq<char> {
    common + "\t"@ + trimmed(line)
}

/// The output row for one data line on the slow path: the line's cells at
/// their canonical positions, behind the common fields.
pub open spec fn slow_row(common: Seq<char>, map: Seq<usize>, width: nat, line: Seq<char>) -> Seq<
    char,
> {
    common + "\t"@ + joined(projected(fields(line, '\t'), map, width), "\t"@)
}

/// The output row for one data line.
pub open spec fn data_row(common: Seq<char>, map: Option<Seq<usize>>, width: nat, line: Seq<char>) -> Seq<
    char,
> {
    match map {
        Some(m) => slow_row(common, m, width, line),
        None => fast_row(common, line),
    }
}

/// The fields that describe a file, joined by `sep`.
pub fn generate_common_fields(md: &HarmonyMetadata, sep: &str) -> (r: String)
    ensures
        r@ == common_fields(md@, sep@),
{
    let measurement = from_chars(&format_u32(md.measurement));
    let eval = from_chars(&format_u32(md.evaluation));
    let mut common_info: Vec<&str> = Vec::new();
    common_info.push(md.plate_name.as_str());
    common_info.push(measurement.as_str());
    common_info.push(eval.as_str());
    common_info.push(md.eval_sig.as_str());
    common_info.push(
        match &md.population {
            Some(p) => p.as_str(),
            None => "Well",
        },
    );
    proof {
        assert(common_info.deep_view() =~= seq![
            md@.plate_name,
            decimal(md.measurement as nat),
            decimal(md.evaluation as nat),
            md@.eval_sig,
            population_text(md@.population),
        ]);
    }
    let mut out = String::new();
    write_interspersed(&mut out, common_info.as_slice(), sep);
    proof {
        assert(Seq::<char>::empty() + common_fields(md@, sep@) =~= common_fields(md@, sep@));
    }
    out
}

/// The strings of `v`, borrowed.
pub fn as_strs<'a>(v: &'a Vec<String>) -> (r: Vec<&'a str>)
    ensures
        r.deep_view() == v.deep_view(),
{
    let mut r: Vec<&'a str> = Vec::new();
    let mut i: usize = 0;
    while i < v.len()
        invariant
            i <= v.len(),
            r.len() == i,
            forall|k: int| 0 <= k < i ==> (#[trigger] r[k])@ == v[k]@,
        decreases v.len() - i,
    {
        r.push(v[i].as_str());
        i += 1;
    }
    proof {
        assert(r.deep_view() =~= v.deep_view());
    }
    r
}

/// The names of `v`, borrowed.
pub fn names_as_strs<'a>(v: &'a Vec<Rc<String>>) -> (r: Vec<&'a str>)
    ensures
        r.deep_view() == v.deep_view(),
{
    let mut r: Vec<&'a str> = Vec::new();
    let mut i: usize = 0;
    while i < v.len()
        invariant
            i <= v.len(),
            r.len() == i,
            forall|k: int| 0 <= k < i ==> (#[trigger] r[k])@ == v[k]@,
        decreases v.len() - i,
    {
        r.push(v[i].as_str());
        i += 1;
    }
    proof {
        assert(r.deep_view() =~= v.deep_view());
    }
    r
}

/// Whether every entry of `map` is below `width`.
pub open spec fn below(map: Seq<usize>, width: nat) -> bool {
    forall|k: int| 0 <= k < map.len() ==> (#[trigger] map[k]) < width
}

/// Lays the cells of a line out over `width` output columns.
pub fn project(cells: &Vec<Vec<char>>, map: &Vec<usize>, width: usize) -> (row: Vec<String>)
    requires
        below(map@, width as nat),
    ensures
        row.deep_view() == projected(cells.deep_view(), map@, width as nat),
{
    let mut row: Vec<String> = Vec::new();
    let mut c: usize = 0;
    while c < width
        invariant
            c <= width,
            row.len() == c,
            forall|i: int| 0 <= i < c ==> (#[trigger] row[i])@ == Seq::<char>::empty(),
        decreases width - c,
    {
        row.push(String::new());
        c += 1;
    }
    let n = if cells.len() <= map.len() {
        cells.len()
    } else {
        map.len()
    };
    let mut k: usize = 0;
    while k < n
        invariant
            k <= n,
            n == placed(cells.deep_view(), map@),
            n <= cells.len(),
            n <= map.len(),
            row.len() == width,
            below(map@, width as nat),
            forall|i: int|
                0 <= i < width ==> (#[trigger] row[i])@ == cell_at(
                    cells.deep_view(),
                    map@,
                    k as int,
                    i,
                ),
        decreases n - k,
    {
        let cell = from_chars(&cells[k]);
        let target = map[k];
        proof {
            assert(cells.deep_view()[k as int] =~= cells[k as int]@);
        }
        row[target] = cell;
        k += 1;
    }
    proof {
        assert(row.deep_view() =~= projected(cells.deep_view(), map@, width as nat));
    }
    row
}

/// The output row for one data line on the fast path.
pub fn fast_line(common: &str, line: &str) -> (r: String)
    ensures
        r@ == fast_row(common@, line@),
{
    let body = from_chars(&trim(&to_chars(line)));
    let mut r = String::new();
    r.append(common);
    r.append("\t");
    r.append(body.as_str());
    proof {
        assert(r@ =~= fast_row(common@, line@));
    }
    r
}

/// The output row for one data line on the slow path.
pub fn slow_line(common: &str, map: &Vec<usize>, width: usize, line: &str) -> (r: String)
    requires
        below(map@, width as nat),
    ensures
        r@ == slow_row(common@, map@, width as nat, line@),
{
    let cells = split(&to_chars(line), '\t');
    let output_line = project(&cells, map, width);
    let items = as_strs(&output_line);
    let mut r = String::new();
    r.append(common);
    r.append("\t");
    write_interspersed(&mut r, items.as_slice(), "\t");
    proof {
        assert(r@ =~= slow_row(common@, map@, width as nat, line@));
    }
    r
}

/// Why a combine is refused.
#[derive(Debug, Clone, Copy, PartialEq, Eq, Structural)]
pub enum CombineError {
    /// There is no file to combine.
    NoFiles,
    /// The reconciliation does not belong to the files: it has another
    /// number of column maps, or a map points outside the canonical header.
    Inconsistent,
    /// The lines of some file were not supplied.
    MissingInput,
}

/// Whether `c` can be used for `n` files: it has `n` column maps, and every
/// entry of every map is a position in its header.
pub open spec fn fits(c: Reconciled, n: nat) -> bool {
    &&& c.maps.len() == n
    &&& forall|f: int, k: int|
        0 <= f < c.maps.len() && 0 <= k < c.maps[f].len() ==> (#[trigger] c.maps[f][k]) < c.hdr.len()
}

/// The reason, if there is one, for which no header row is written.
pub open spec fn header_refusal(files: Seq<Record>, c: Option<Reconciled>) -> Option<CombineError> {
    if files.len() == 0 {
        Some(CombineError::NoFiles)
    } else if c is Some && !fits(c->0, files.len()) {
        Some(CombineError::Inconsistent)
    } else {
        None
    }
}

/// The reason, if there is one, for which nothing is written.
pub open spec fn refusal(files: Seq<Record>, c: Option<Reconciled>, supplied: nat) -> Option<
    CombineError,
> {
    if header_refusal(files, c) is Some {
        header_refusal(files, c)
    } else if supplied != files.len() {
        Some(CombineError::MissingInput)
    } else {
        None
    }
}

/// The data columns of the output: the canonical header, or on the fast
/// path the header of the first file.
pub open spec fn output_columns(files: Seq<Record>, c: Option<Reconciled>) -> Seq<Seq<char>> {
    match c {
        Some(c) => c.hdr,
        None => files[0].headers,
    }
}

/// The column map of file `f`, if there is a reconciliation.
pub open spec fn map_of(c: Option<Reconciled>, f: int) -> Option<Seq<usize>> {
    match c {
        Some(c) => Some(c.maps[f]),
        None => None,
    }
}

/// The number of data columns that a slow-path row has.
pub open spec fn width_of(c: Option<Reconciled>) -> nat {
    match c {
        Some(c) => c.hdr.len(),
        None => 0,
    }
}

/// Whether line `index` of a file gives an output row: it stands at or
/// behind the file's first data line, and it is not empty.
pub open spec fn is_data_line(r: Record, index: int, line: Seq<char>) -> bool {
    index >= r.data_start && line.len() > 0
}

/// The output rows that the first `n` lines of a file give, in the order of
/// the lines.
pub open spec fn rows_of_lines(
    r: Record,
    map: Option<Seq<usize>>,
    width: nat,
    lines: Seq<Seq<char>>,
    n: int,
) -> Seq<Seq<char>>
    decreases n,
{
    if n <= 0 {
        Seq::empty()
    } else {
        let before = rows_of_lines(r, map, width, lines, n - 1);
        if is_data_line(r, n - 1, lines[n - 1]) {
            before.push(data_row(common_fields(r, "\t"@), map, width, lines[n - 1]))
        } else {
            before
        }
    }
}

/// The output rows of one file: one for each data line, in the order of the
/// lines. A file that ends before its first data line gives none.
pub open spec fn file_rows(
    r: Record,
    map: Option<Seq<usize>>,
    width: nat,
    lines: Seq<Seq<char>>,
) -> Seq<Seq<char>> {
    rows_of_lines(r, map, width, lines, lines.len() as int)
}

/// The output rows of the first `n` files, file after file.
pub open spec fn rows_before(
    files: Seq<Record>,
    c: Option<Reconciled>,
    data: Seq<Seq<Seq<char>>>,
    n: int,
) -> Seq<Seq<char>>
    decreases n,
{
    if n <= 0 {
        Seq::empty()
    } else {
        rows_before(files, c, data, n - 1) + file_rows(
            files[n - 1],
            map_of(c, n - 1),
            width_of(c),
            data[n - 1],
        )
    }
}

/// All rows of the output: the header row, then the rows of every file in
/// the order of the files.
pub open spec fn output_rows(
    files: Seq<Record>,
    c: Option<Reconciled>,
    data: Seq<Seq<Seq<char>>>,
) -> Seq<Seq<char>> {
    seq![header_row(output_columns(files, c))] + rows_before(files, c, data, files.len() as int)
}

/// The text of `rows`: every row followed by a line feed.
pub open spec fn rendered(rows: Seq<Seq<char>>) -> Seq<char>
    decreases rows.len(),
{
    if rows.len() == 0 {
        Seq::empty()
    } else {
        rendered(rows.drop_last()) + rows.last() + "\n"@
    }
}

/// Rendering rows one after another renders their concatenation.
pub proof fn lemma_rendered_concat(a: Seq<Seq<char>>, b: Seq<Seq<char>>)
    ensures
        rendered(a + b) == rendered(a) + rendered(b),
    decreases b.len(),
{
    if b.len() == 0 {
        assert(a + b =~= a);
        assert(rendered(a) + rendered(b) =~= rendered(a));
    } else {
        lemma_rendered_concat(a, b.drop_last());
        assert((a + b).drop_last() =~= a + b.drop_last());
        assert((a + b).last() == b.last());
        assert(rendered(a + b) =~= rendered(a) + rendered(b));
    }
}

/// The content of a column map that may be absent.
pub open spec fn map_view(map: Option<&Vec<usize>>) -> Option<Seq<usize>> {
    match map {
        Some(m) => Some(m@),
        None => None,
    }
}

/// Whether every entry of the map, if there is one, is below `width`.
pub open spec fn within(map: Option<Seq<usize>>, width: nat) -> bool {
    match map {
        Some(m) => below(m, width),
        None => true,
    }
}

impl Combined {
    /// Whether this reconciliation can be used for `n` files.
    pub fn fits(&self, n: usize) -> (r: bool)
        ensures
            r == fits(self@, n as nat),
    {
        if self.maps.len() != n {
            return false;
        }
        let width = self.hdr.len();
        let mut f: usize = 0;
        while f < self.maps.len()
            invariant
                f <= self.maps.len(),
                width == self.hdr.len(),
                forall|g: int, k: int|
                    0 <= g < f && 0 <= k < self.maps[g].len() ==> (#[trigger] self.maps[g][k])
                        < width,
            decreases self.maps.len() - f,
        {
            let map = &self.maps[f];
            let mut k: usize = 0;
            while k < map.len()
                invariant
                    k <= map.len(),
                    f < self.maps.len(),
                    map == &self.maps[f as int],
                    width == self.hdr.len(),
                    forall|i: int| 0 <= i < k ==> map[i] < width,
                decreases map.len() - k,
            {
                if map[k] >= width {
                    proof {
                        assert(self@.maps[f as int] =~= map@);
                        assert(self@.maps[f as int][k as int] >= self@.hdr.len());
                    }
                    return false;
                }
                k += 1;
            }
            f += 1;
        }
        proof {
            assert forall|g: int, k: int|
                0 <= g < self@.maps.len() && 0 <= k < self@.maps[g].len() implies (
            #[trigger] self@.maps[g][k]) < self@.hdr.len() by {
                assert(self@.maps[g] =~= self.maps[g]@);
            }
        }
        true
    }
}

/// The output row of the line with index `index` of a file, or nothing for a
/// line that gives no row: one before the file's first data line, or an
/// empty one. `common` holds the common fields of the file.
pub fn combine_line(
    md: &HarmonyMetadata,
    common: &str,
    map: Option<&Vec<usize>>,
    width: usize,
    index: usize,
    line: &str,
) -> (r: Option<String>)
    requires
        within(map_view(map), width as nat),
    ensures
        r is Some <==> is_data_line(md@, index as int, line@),
        r matches Some(row) ==> row@ == data_row(common@, map_view(map), width as nat, line@),
{
    if index < md.data_start || line.is_empty() {
        return None;
    }
    match map {
        Some(m) => {
            proof {
                assert(map_view(map) == Some(m@));
            }
            Some(slow_line(common, m, width, line))
        },
        None => Some(fast_line(common, line)),
    }
}

/// The header row of the output, with its line feed.
pub fn header_line(md: &Vec<HarmonyMetadata>, combination: &Option<Combined>) -> (r: Result<
    String,
    CombineError,
>)
    ensures
        match r {
            Ok(text) => header_refusal(md.deep_view(), combination.deep_view()) is None && text@
                == header_row(output_columns(md.deep_view(), combination.deep_view())) + "\n"@,
            Err(e) => header_refusal(md.deep_view(), combination.deep_view()) == Some(e),
        },
{
    if md.len() == 0 {
        return Err(CombineError::NoFiles);
    }
    let hdr = match combination {
        Some(c) => {
            if !c.fits(md.len()) {
                return Err(CombineError::Inconsistent);
            }
            names_as_strs(&c.hdr)
        },
        None => names_as_strs(&md[0].headers),
    };
    let mut names: Vec<&str> = Vec::new();
    names.push("Plate Name");
    names.push("Measurement");
    names.push("Evaluation");
    names.push("Evaluation Signature");
    names.push("Population");
    proof {
        assert(names.deep_view() =~= common_names());
        assert(md.deep_view()[0] == md[0]@);
    }
    let mut text = String::new();
    write_interspersed(&mut text, names.as_slice(), "\t");
    text.append("\t");
    write_interspersed(&mut text, hdr.as_slice(), "\t");
    text.append("\n");
    proof {
        assert(text@ =~= header_row(output_columns(md.deep_view(), combination.deep_view()))
            + "\n"@);
    }
    Ok(text)
}

/// Writes the output rows of one file to `out`.
pub fn write_file_rows(
    out: &mut String,
    md: &HarmonyMetadata,
    map: Option<&Vec<usize>>,
    width: usize,
    lines: &Vec<String>,
)
    requires
        within(map_view(map), width as nat),
    ensures
        final(out)@ == old(out)@ + rendered(
            file_rows(md@, map_view(map), width as nat, lines.deep_view()),
        ),
{
    let common_info = generate_common_fields(md, "\t");
    let ghost all = lines.deep_view();
    let mut i: usize = 0;
    proof {
        assert(out@ + Seq::<char>::empty() =~= out@);
    }
    while i < lines.len()
        invariant
            i <= lines.len(),
            all == lines.deep_view(),
            within(map_view(map), width as nat),
            common_info@ == common_fields(md@, "\t"@),
            out@ == old(out)@ + rendered(
                rows_of_lines(md@, map_view(map), width as nat, all, i as int),
            ),
        decreases lines.len() - i,
    {
        let ghost done = rows_of_lines(md@, map_view(map), width as nat, all, i as int);
        proof {
            assert(all[i as int] == lines[i as int]@);
        }
        match combine_line(md, common_info.as_str(), map, width, i, lines[i].as_str()) {
            Some(text) => {
                out.append(text.as_str());
                out.append("\n");
                proof {
                    let next = rows_of_lines(md@, map_view(map), width as nat, all, i + 1);
                    assert(next == done.push(text@));
                    assert(next.drop_last() =~= done);
                    assert(out@ =~= old(out)@ + rendered(next));
                }
            },
            None => {},
        }
        i += 1;
    }
}

/// A reconciliation of the files' headers fits the files.
pub proof fn lemma_reconciliation_fits(files: Seq<Record>, c: Reconciled)
    requires
        is_reconciliation(header_lists(files), Some(c)),
    ensures
        fits(c, files.len()),
{
    let lists = header_lists(files);
    assert forall|f: int, k: int| 0 <= f < c.maps.len() && 0 <= k < c.maps[f].len() implies (
    #[trigger] c.maps[f][k]) < c.hdr.len() by {
        assert(is_column_map(c.hdr, lists[f], c.maps[f]));
        assert(is_first_index(c.hdr, lists[f][k], c.maps[f][k] as int));
    }
}

/// Writes the combined table to `wtr`: the header row, then the rows of each
/// file in the order of `md`, where `data[f]` holds the lines of file `f`.
/// On a refusal nothing is written.
pub fn write_output(
    wtr: &mut String,
    md: &Vec<HarmonyMetadata>,
    combination: &Option<Combined>,
    data: &Vec<Vec<String>>,
) -> (r: Result<(), CombineError>)
    ensures
        match r {
            Ok(_) => refusal(md.deep_view(), combination.deep_view(), data.len() as nat) is None
                && final(wtr)@ == old(wtr)@ + rendered(
                output_rows(md.deep_view(), combination.deep_view(), data.deep_view()),
            ),
            Err(e) => refusal(md.deep_view(), combination.deep_view(), data.len() as nat) == Some(e)
                && final(wtr)@ == old(wtr)@,
        },
{
    let header = match header_line(md, combination) {
        Ok(text) => text,
        Err(e) => {
            return Err(e);
        },
    };
    if data.len() != md.len() {
        return Err(CombineError::MissingInput);
    }
    let ghost files = md.deep_view();
    let ghost c = combination.deep_view();
    let ghost texts = data.deep_view();
    let ghost first = header_row(output_columns(files, c));
    wtr.append(header.as_str());
    proof {
        assert(seq![first].drop_last() =~= Seq::<Seq<char>>::empty());
        assert(rendered(seq![first].drop_last()) =~= Seq::<char>::empty());
        assert(seq![first].last() == first);
        assert(rendered(seq![first]) =~= first + "\n"@);
        assert(seq![first] + rows_before(files, c, texts, 0) =~= seq![first]);
    }
    let n = md.len();
    let mut f: usize = 0;
    while f < n
        invariant
            f <= n,
            n == md.len(),
            n == data.len(),
            files == md.deep_view(),
            c == combination.deep_view(),
            texts == data.deep_view(),
            header_refusal(files, c) is None,
            wtr@ == old(wtr)@ + rendered(seq![first] + rows_before(files, c, texts, f as int)),
        decreases n - f,
    {
        let ghost before = rows_before(files, c, texts, f as int);
        let ghost rows = file_rows(files[f as int], map_of(c, f as int), width_of(c), texts[f as int]);
        proof {
            assert(files[f as int] == md[f as int]@);
            assert(texts[f as int] == data[f as int].deep_view());
            lemma_rendered_concat(seq![first] + before, rows);
            assert(seq![first] + rows_before(files, c, texts, f + 1) =~= (seq![first] + before)
                + rows);
        }
        match combination {
            Some(comb) => {
                proof {
                    assert(c == Some(comb@));
                    assert(comb@.maps[f as int] =~= comb.maps[f as int]@);
                    assert(fits(comb@, files.len()));
                    assert forall|k: int| 0 <= k < comb.maps[f as int]@.len() implies (
                    #[trigger] comb.maps[f as int]@[k]) < comb.hdr.len() by {
                        assert(comb@.maps[f as int][k] < comb@.hdr.len());
                    }
                }
                write_file_rows(wtr, &md[f], Some(&comb.maps[f]), comb.hdr.len(), &data[f]);
            },
            None => {
                write_file_rows(wtr, &md[f], None, 0, &data[f]);
            },
        }
        proof {
            assert(wtr@ =~= old(wtr)@ + rendered(seq![first] + rows_before(files, c, texts, f + 1)));
        }
        f += 1;
    }
    Ok(())
}

/// Combines the files into one table and returns its text. `data[f]` holds
/// the lines of the file that `metadata[f]` describes. The headers are
/// reconciled first; there must be at least one file, and lines for each.
pub fn combine_files(metadata: &Vec<HarmonyMetadata>, data: &Vec<Vec<String>>) -> (r: Result<
    String,
    CombineError,
>)
    ensures
        match r {
            Ok(text) => metadata.len() > 0 && data.len() == metadata.len() && text@ == rendered(
                output_rows(
                    metadata.deep_view(),
                    reconciliation(header_lists(metadata.deep_view())),
                    data.deep_view(),
                ),
            ),
            Err(e) => if metadata.len() == 0 {
                e == CombineError::NoFiles
            } else {
                e == CombineError::MissingInput && data.len() != metadata.len()
            },
        },
{
    let combination = combine_headers(metadata);
    proof {
        if combination is Some {
            lemma_reconciliation_fits(metadata.deep_view(), combination.deep_view()->0);
        }
    }
    let mut out = String::new();
    match write_output(&mut out, metadata, &combination, data) {
        Ok(_) => {
            proof {
                let rows = output_rows(
                    metadata.deep_view(),
                    combination.deep_view(),
                    data.deep_view(),
                );
                assert(Seq::<char>::empty() + rendered(rows) =~= rendered(rows));
            }
            Ok(out)
        },
        Err(e) => Err(e),
    }
}

/// The number of data lines among the first `n` lines of a file.
pub open spec fn data_line_count(r: Record, lines: Seq<Seq<char>>, n: int) -> nat
    decreases n,
{
    if n <= 0 {
        0
    } else if is_data_line(r, n - 1, lines[n - 1]) {
        data_line_count(r, lines, n - 1) + 1
    } else {
        data_line_count(r, lines, n - 1)
    }
}

/// The number of data lines that the first `n` files have together.
pub open spec fn rows_count_before(files: Seq<Record>, data: Seq<Seq<Seq<char>>>, n: int) -> nat
    decreases n,
{
    if n <= 0 {
        0
    } else {
        rows_count_before(files, data, n - 1) + data_line_count(
            files[n - 1],
            data[n - 1],
            data[n - 1].len() as int,
        )
    }
}

/// The first `n` lines of a file give one row for each data line among
/// them, and the row of a data line stands behind the rows of the data lines
/// before it.
pub proof fn lemma_rows_of_lines(
    r: Record,
    map: Option<Seq<usize>>,
    width: nat,
    lines: Seq<Seq<char>>,
    n: int,
    i: int,
)
    requires
        0 <= i < n,
    ensures
        rows_of_lines(r, map, width, lines, n).len() == data_line_count(r, lines, n),
        data_line_count(r, lines, i) <= data_line_count(r, lines, n),
        is_data_line(r, i, lines[i]) ==> data_line_count(r, lines, i) < data_line_count(
            r,
            lines,
            n,
        ) && rows_of_lines(r, map, width, lines, n)[data_line_count(r, lines, i) as int]
            == data_row(common_fields(r, "\t"@), map, width, lines[i]),
    decreases n,
{
    lemma_rows_of_lines_len(r, map, width, lines, n);
    lemma_rows_of_lines_len(r, map, width, lines, n - 1);
    if i < n - 1 {
        lemma_rows_of_lines(r, map, width, lines, n - 1, i);
    }
}

/// The first `n` lines of a file give as many rows as there are data lines
/// among them.
pub proof fn lemma_rows_of_lines_len(
    r: Record,
    map: Option<Seq<usize>>,
    width: nat,
    lines: Seq<Seq<char>>,
    n: int,
)
    ensures
        rows_of_lines(r, map, width, lines, n).len() == data_line_count(r, lines, n),
    decreases n,
{
    if n > 0 {
        lemma_rows_of_lines_len(r, map, width, lines, n - 1);
    }
}

/// The first `n` files give as many rows as they have data lines.
pub proof fn lemma_rows_before_len(
    files: Seq<Record>,
    c: Option<Reconciled>,
    data: Seq<Seq<Seq<char>>>,
    n: int,
)
    ensures
        rows_before(files, c, data, n).len() == rows_count_before(files, data, n),
    decreases n,
{
    if n > 0 {
        lemma_rows_before_len(files, c, data, n - 1);
        lemma_rows_of_lines_len(
            files[n - 1],
            map_of(c, n - 1),
            width_of(c),
            data[n - 1],
            data[n - 1].len() as int,
        );
    }
}

/// The place in the output of the row of line `i` of file `f`: behind the
/// header row, the rows of the files before `f` and the rows of the data
/// lines of `f` before `i`.
pub open spec fn row_position(
    files: Seq<Record>,
    data: Seq<Seq<Seq<char>>>,
    f: int,
    i: int,
) -> int {
    1 + rows_count_before(files, data, f) as int + data_line_count(files[f], data[f], i) as int
}

/// The output has one header row and then one row for each data line: the
/// row of data line `i` of file `f` stands behind the rows of all files
/// before `f` and of the data lines of `f` before `i`.
pub proof fn lemma_output_order(
    files: Seq<Record>,
    c: Option<Reconciled>,
    data: Seq<Seq<Seq<char>>>,
    f: int,
    i: int,
)
    requires
        0 <= f < files.len(),
        0 <= i < data[f].len(),
        is_data_line(files[f], i, data[f][i]),
    ensures
        output_rows(files, c, data).len() == 1 + rows_count_before(files, data, files.len() as int),
        output_rows(files, c, data)[0] == header_row(output_columns(files, c)),
        row_position(files, data, f, i) < output_rows(files, c, data).len(),
        output_rows(files, c, data)[row_position(files, data, f, i)] == data_row(
            common_fields(files[f], "\t"@),
            map_of(c, f),
            width_of(c),
            data[f][i],
        ),
{
    let n = files.len() as int;
    lemma_rows_before_len(files, c, data, n);
    lemma_rows_before_len(files, c, data, f);
    lemma_rows_before_len(files, c, data, f + 1);
    lemma_rows_before_prefix(files, c, data, f + 1, n);
    lemma_rows_of_lines(files[f], map_of(c, f), width_of(c), data[f], data[f].len() as int, i);
    let upto = rows_before(files, c, data, f + 1);
    let own = file_rows(files[f], map_of(c, f), width_of(c), data[f]);
    let k = data_line_count(files[f], data[f], i) as int;
    assert(upto == rows_before(files, c, data, f) + own);
    assert(upto[rows_before(files, c, data, f).len() + k] == own[k]);
    let all = rows_before(files, c, data, n);
    assert(all.take(upto.len() as int)[rows_before(files, c, data, f).len() + k] == all[rows_before(
        files,
        c,
        data,
        f,
    ).len() + k]);
}

/// Two files with `R1` and `R2` data lines give `1 + R1 + R2` rows.
pub proof fn lemma_two_files_row_count(
    files: Seq<Record>,
    c: Option<Reconciled>,
    data: Seq<Seq<Seq<char>>>,
)
    requires
        files.len() == 2,
    ensures
        output_rows(files, c, data).len() == 1 + data_line_count(
            files[0],
            data[0],
            data[0].len() as int,
        ) + data_line_count(files[1], data[1], data[1].len() as int),
{
    lemma_rows_before_len(files, c, data, 2);
    assert(rows_count_before(files, data, 2) == rows_count_before(files, data, 1)
        + data_line_count(files[1], data[1], data[1].len() as int));
    assert(rows_count_before(files, data, 1) == rows_count_before(files, data, 0)
        + data_line_count(files[0], data[0], data[0].len() as int));
}

/// The rows of the first `m` files open the rows of the first `n`, for
/// `m <= n`.
pub proof fn lemma_rows_before_prefix(
    files: Seq<Record>,
    c: Option<Reconciled>,
    data: Seq<Seq<Seq<char>>>,
    m: int,
    n: int,
)
    requires
        0 <= m <= n,
    ensures
        rows_before(files, c, data, m).len() <= rows_before(files, c, data, n).len(),
        rows_before(files, c, data, n).take(rows_before(files, c, data, m).len() as int)
            == rows_before(files, c, data, m),
    decreases n - m,
{
    if m < n {
        lemma_rows_before_prefix(files, c, data, m, n - 1);
        let shorter = rows_before(files, c, data, n - 1);
        let longer = rows_before(files, c, data, n);
        let len = rows_before(files, c, data, m).len() as int;
        assert(longer.take(len) =~= shorter.take(len));
    } else {
        let all = rows_before(files, c, data, n);
        assert(all.take(all.len() as int) =~= all);
    }
}

/// Files whose headers hold the same names take the fast path, and the
/// output header then names the data columns in the order of the first file.
pub proof fn lemma_fast_path_header(files: Seq<Record>, data: Seq<Seq<Seq<char>>>)
    requires
        files.len() > 0,
        forall|f: int, g: int|
            0 <= f < files.len() && 0 <= g < files.len() ==> same_names(
                #[trigger] files[f].headers,
                #[trigger] files[g].headers,
            ),
    ensures
        reconciliation(header_lists(files)) is None,
        output_rows(files, reconciliation(header_lists(files)), data)[0] == header_row(
            files[0].headers,
        ),
{
    let lists = header_lists(files);
    assert forall|f: int| 0 <= f < lists.len() implies same_names(#[trigger] lists[f], lists[0]) by {
        assert(same_names(files[f].headers, files[0].headers));
    }
    assert(is_reconciliation(lists, None));
    lemma_reconciliation_is(lists, None);
}

} // verus!
