//! Reconciling the column names of a batch of files: one canonical header
//! for all of them, and for each file the place of its columns in it.

use crate::info::{share_all, HarmonyMetadata, Record};
use crate::intern::share;
use crate::order::{
    lemma_lex_irreflexive, lemma_lex_total, lemma_lex_transitive, lemma_sorted_no_duplicates,
    lemma_sorted_unique, lex_less, lex_lt, strictly_sorted,
};
use crate::text::to_chars;
use std::rc::Rc;
use vstd::prelude::*;

verus! {

/// The outcome of reconciling files whose column names differ: the canonical
/// header, and for each file, column by column, the position in the canonical
/// header that the column goes to.
#[derive(Debug)]
pub struct Combined {
    pub hdr: Vec<Rc<String>>,
    pub maps: Vec<Vec<usize>>,
}

/// The mathematical content of a `Combined`.
pub ghost struct Reconciled {
    pub hdr: Seq<Seq<char>>,
    pub maps: Seq<Seq<usize>>,
}

impl View for Combined {
    type V = Reconciled;

    open spec fn view(&self) -> Reconciled {
        Reconciled { hdr: self.hdr.deep_view(), maps: self.maps.deep_view() }
    }
}

impl DeepView for Combined {
    type V = Reconciled;

    open spec fn deep_view(&self) -> Reconciled {
        self@
    }
}

/// The header of each record, in the order of the records.
pub open spec fn header_lists(records: Seq<Record>) -> Seq<Seq<Seq<char>>> {
    Seq::new(records.len(), |i: int| records[i].headers)
}

/// Whether two headers hold the same names, whatever their order and however
/// often a name occurs.
pub open spec fn same_names(a: Seq<Seq<char>>, b: Seq<Seq<char>>) -> bool {
    forall|x: Seq<char>| a.contains(x) <==> b.contains(x)
}

/// Whether every file has the names of the first file, and no others.
pub open spec fn all_same(files: Seq<Seq<Seq<char>>>) -> bool {
    same_before(files, files.len() as int)
}

/// Whether one of the first `n` files has the column `name`.
pub open spec fn occurs_before(files: Seq<Seq<Seq<char>>>, n: int, name: Seq<char>) -> bool {
    exists|f: int| 0 <= f < n && (#[trigger] files[f]).contains(name)
}

/// Whether some file has the column `name`.
pub open spec fn occurs(files: Seq<Seq<Seq<char>>>, name: Seq<char>) -> bool {
    occurs_before(files, files.len() as int, name)
}

/// Whether each of the first `n` files has the names of the first file, and
/// no others.
pub open spec fn same_before(files: Seq<Seq<Seq<char>>>, n: int) -> bool {
    forall|f: int| 0 <= f < n ==> same_names(#[trigger] files[f], files[0])
}

/// Whether `now` holds just the names that the first `n` files have and the
/// first file lacks.
pub open spec fn novel_before(now: Seq<Seq<char>>, files: Seq<Seq<Seq<char>>>, n: int) -> bool {
    forall|x: Seq<char>|
        #![trigger now.contains(x)]
        #![trigger occurs_before(files, n, x)]
        now.contains(x) <==> (!files[0].contains(x) && occurs_before(files, n, x))
}

/// Whether `name` is a column of some file but not of the first one.
pub open spec fn is_novel(files: Seq<Seq<Seq<char>>>, name: Seq<char>) -> bool {
    files.len() > 0 && !files[0].contains(name) && occurs(files, name)
}

/// Whether `hdr` is the canonical header of `files`: the first file's header
/// as it stands, then the novel names, each once, in ascending order.
pub open spec fn is_canonical(files: Seq<Seq<Seq<char>>>, hdr: Seq<Seq<char>>) -> bool {
    &&& files.len() > 0
    &&& hdr.len() >= files[0].len()
    &&& hdr.take(files[0].len() as int) == files[0]
    &&& strictly_sorted(hdr.skip(files[0].len() as int))
    &&& forall|name: Seq<char>|
        hdr.skip(files[0].len() as int).contains(name) <==> is_novel(files, name)
}

/// Whether `i` is the first position of `name` in `hdr`.
pub open spec fn is_first_index(hdr: Seq<Seq<char>>, name: Seq<char>, i: int) -> bool {
    &&& 0 <= i < hdr.len()
    &&& hdr[i] == name
    &&& forall|k: int| 0 <= k < i ==> hdr[k] != name
}

/// Whether `map` sends each column of `header` to the first position of its
/// name in `hdr`.
pub open spec fn is_column_map(hdr: Seq<Seq<char>>, header: Seq<Seq<char>>, map: Seq<usize>) -> bool {
    &&& map.len() == header.len()
    &&& forall|j: int| 0 <= j < header.len() ==> is_first_index(hdr, header[j], #[trigger] map[j] as int)
}

/// Whether `r` is the reconciliation of `files`. Nothing is produced (the
/// fast path) when there is no file or all files have the same names.
/// Otherwise there is a canonical header and one column map per file.
pub open spec fn is_reconciliation(files: Seq<Seq<Seq<char>>>, r: Option<Reconciled>) -> bool {
    match r {
        None => files.len() == 0 || all_same(files),
        Some(c) => {
            &&& files.len() > 0
            &&& !all_same(files)
            &&& is_canonical(files, c.hdr)
            &&& c.maps.len() == files.len()
            &&& forall|f: int|
                0 <= f < files.len() ==> is_column_map(c.hdr, files[f], #[trigger] c.maps[f])
        },
    }
}

/// The first position of `name` in `list`, if it occurs there.
pub fn position(list: &Vec<Rc<String>>, name: &String) -> (r: Option<usize>)
    ensures
        match r {
            Some(i) => is_first_index(list.deep_view(), name@, i as int),
            None => !list.deep_view().contains(name@),
        },
{
    let mut i: usize = 0;
    while i < list.len()
        invariant
            i <= list.len(),
            forall|k: int| 0 <= k < i ==> list.deep_view()[k] != name@,
        decreases list.len() - i,
    {
        if *list[i] == *name {
            return Some(i);
        }
        i += 1;
    }
    None
}

/// Whether every name of `a` is a name of `b`.
pub fn covers(a: &Vec<Rc<String>>, b: &Vec<Rc<String>>) -> (r: bool)
    ensures
        r == (forall|x: Seq<char>| a.deep_view().contains(x) ==> b.deep_view().contains(x)),
{
    let mut i: usize = 0;
    while i < a.len()
        invariant
            i <= a.len(),
            forall|k: int| 0 <= k < i ==> b.deep_view().contains(#[trigger] a.deep_view()[k]),
        decreases a.len() - i,
    {
        if position(b, &a[i]).is_none() {
            proof {
                assert(a.deep_view().contains(a.deep_view()[i as int]));
            }
            return false;
        }
        i += 1;
    }
    true
}

/// Whether the text of `h` comes strictly before `wanted`.
fn comes_before(h: &Rc<String>, wanted: &Vec<char>) -> (r: bool)
    ensures
        r == lex_lt(h@, wanted@),
{
    let here = to_chars(h.as_str());
    lex_less(&here, wanted)
}

/// Puts `name` into the ascending list `v` at its place, unless `v` holds it
/// already.
pub fn insert_sorted(v: &mut Vec<Rc<String>>, name: &Rc<String>)
    requires
        strictly_sorted(old(v).deep_view()),
    ensures
        strictly_sorted(final(v).deep_view()),
        forall|x: Seq<char>|
            final(v).deep_view().contains(x) <==> (old(v).deep_view().contains(x) || x == name@),
{
    let wanted = to_chars(name.as_str());
    let ghost before = v.deep_view();
    let mut p: usize = 0;
    while p < v.len() && comes_before(&v[p], &wanted)
        invariant
            p <= v.len(),
            wanted@ == name@,
            v.deep_view() == before,
            forall|k: int| 0 <= k < p ==> lex_lt(#[trigger] before[k], name@),
        decreases v.len() - p,
    {
        p += 1;
    }
    proof {
        assert forall|k: int| 0 <= k < p implies before[k] != name@ by {
            lemma_lex_irreflexive(name@);
        }
    }
    if p < v.len() && *v[p] == **name {
        proof {
            assert(before[p as int] == name@);
        }
        return;
    }
    proof {
        assert forall|k: int| p <= k < before.len() implies lex_lt(name@, #[trigger] before[k]) by {
            lemma_lex_total(before[p as int], name@);
            if k > p {
                lemma_lex_transitive(name@, before[p as int], before[k]);
            }
        }
    }
    v.insert(p, share(name));
    proof {
        let after = v.deep_view();
        assert(after =~= before.insert(p as int, name@));
        assert forall|i: int, j: int| 0 <= i < j < after.len() implies lex_lt(
            #[trigger] after[i],
            #[trigger] after[j],
        ) by {
            if j < p {
                assert(after[i] == before[i] && after[j] == before[j]);
            } else if j == p {
                assert(after[i] == before[i]);
            } else if i < p {
                assert(after[i] == before[i] && after[j] == before[j - 1]);
            } else if i == p {
                assert(after[j] == before[j - 1]);
            } else {
                assert(after[i] == before[i - 1] && after[j] == before[j - 1]);
            }
        }
        assert forall|x: Seq<char>| after.contains(x) <==> (before.contains(x) || x == name@) by {
            if after.contains(x) {
                let k = choose|k: int| 0 <= k < after.len() && after[k] == x;
                if k < p {
                    assert(before[k] == x);
                } else if k > p {
                    assert(before[k - 1] == x);
                }
            }
            if before.contains(x) {
                let k = choose|k: int| 0 <= k < before.len() && before[k] == x;
                if k < p {
                    assert(after[k] == x);
                } else {
                    assert(after[k + 1] == x);
                }
            }
            assert(after[p as int] == name@);
        }
    }
}

/// Whether `now` holds what `start` held and, besides, the names of `seen`
/// that `basis` lacks.
pub open spec fn grown_by(
    now: Seq<Seq<char>>,
    start: Seq<Seq<char>>,
    seen: Seq<Seq<char>>,
    basis: Seq<Seq<char>>,
) -> bool {
    forall|x: Seq<char>|
        #![trigger now.contains(x)]
        #![trigger start.contains(x)]
        #![trigger seen.contains(x)]
        now.contains(x) <==> (start.contains(x) || (seen.contains(x) && !basis.contains(x)))
}

/// Adds to the ascending list `novel` every name of `header` that `base` lacks.
fn add_novel(novel: &mut Vec<Rc<String>>, base: &Vec<Rc<String>>, header: &Vec<Rc<String>>)
    requires
        strictly_sorted(old(novel).deep_view()),
    ensures
        strictly_sorted(final(novel).deep_view()),
        grown_by(
            final(novel).deep_view(),
            old(novel).deep_view(),
            header.deep_view(),
            base.deep_view(),
        ),
{
    let ghost names = header.deep_view();
    let ghost start = novel.deep_view();
    let ghost basis = base.deep_view();
    proof {
        assert(names.take(0) =~= Seq::<Seq<char>>::empty());
    }
    let mut j: usize = 0;
    while j < header.len()
        invariant
            j <= header.len(),
            names == header.deep_view(),
            start == old(novel).deep_view(),
            basis == base.deep_view(),
            strictly_sorted(novel.deep_view()),
            grown_by(novel.deep_view(), start, names.take(j as int), basis),
        decreases header.len() - j,
    {
        let ghost before = novel.deep_view();
        if position(base, &header[j]).is_none() {
            insert_sorted(novel, &header[j]);
        }
        proof {
            let name = names[j as int];
            let now = novel.deep_view();
            let shorter = names.take(j as int);
            let longer = names.take(j + 1);
            assert(longer =~= shorter.push(name));
            assert forall|x: Seq<char>|
                now.contains(x) <==> (start.contains(x) || (longer.contains(x) && !basis.contains(
                    x,
                ))) by {
                assert(before.contains(x) <==> (start.contains(x) || (shorter.contains(x)
                    && !basis.contains(x))));
                assert(now.contains(x) <==> (before.contains(x) || (x == name && !basis.contains(
                    name,
                ))));
                if shorter.contains(x) {
                    let k = choose|k: int| 0 <= k < shorter.len() && shorter[k] == x;
                    assert(longer[k] == x);
                }
                if longer.contains(x) && x != name {
                    let k = choose|k: int| 0 <= k < longer.len() && longer[k] == x;
                    assert(shorter[k] == x);
                }
                assert(longer[j as int] == name);
            }
        }
        j += 1;
    }
    proof {
        assert(names.take(header.len() as int) =~= names);
    }
}

/// Where each column of `header` stands in `hdr`, if `hdr` has them all.
pub fn column_map(hdr: &Vec<Rc<String>>, header: &Vec<Rc<String>>) -> (r: Option<Vec<usize>>)
    ensures
        match r {
            Some(map) => is_column_map(hdr.deep_view(), header.deep_view(), map@),
            None => exists|j: int|
                0 <= j < header.len() && !hdr.deep_view().contains(#[trigger] header.deep_view()[j]),
        },
{
    let mut map: Vec<usize> = Vec::new();
    let mut j: usize = 0;
    while j < header.len()
        invariant
            j <= header.len(),
            map.len() == j,
            forall|k: int|
                0 <= k < j ==> is_first_index(
                    hdr.deep_view(),
                    header.deep_view()[k],
                    #[trigger] map@[k] as int,
                ),
        decreases header.len() - j,
    {
        match position(hdr, &header[j]) {
            Some(i) => {
                map.push(i);
            },
            None => {
                proof {
                    assert(!hdr.deep_view().contains(header.deep_view()[j as int]));
                }
                return None;
            },
        }
        j += 1;
    }
    Some(map)
}

/// The canonical header holds every column of every file.
pub proof fn lemma_canonical_covers(files: Seq<Seq<Seq<char>>>, hdr: Seq<Seq<char>>, f: int, j: int)
    requires
        is_canonical(files, hdr),
        0 <= f < files.len(),
        0 <= j < files[f].len(),
    ensures
        hdr.contains(files[f][j]),
{
    let name = files[f][j];
    let n = files[0].len() as int;
    if files[0].contains(name) {
        let k = choose|k: int| 0 <= k < n && files[0][k] == name;
        assert(hdr.take(n)[k] == name);
        assert(hdr[k] == name);
    } else {
        assert(files[f].contains(name));
        assert(is_novel(files, name));
        let tail = hdr.skip(n);
        assert(tail.contains(name));
        let k = choose|k: int| 0 <= k < tail.len() && tail[k] == name;
        assert(hdr[n + k] == name);
    }
}

/// Whether two headers hold the same names.
pub fn have_same_names(a: &Vec<Rc<String>>, b: &Vec<Rc<String>>) -> (r: bool)
    ensures
        r == same_names(a.deep_view(), b.deep_view()),
{
    covers(a, b) && covers(b, a)
}

/// Reconciles the headers of the files. `None` stands for the fast path:
/// there is no file, or all files have the same column names, so that rows
/// can be copied as they are. Otherwise the result holds the canonical
/// header and one column map per file.
pub fn combine_headers(metadata: &Vec<HarmonyMetadata>) -> (r: Option<Combined>)
    ensures
        is_reconciliation(header_lists(metadata.deep_view()), r.deep_view()),
        r.deep_view() == reconciliation(header_lists(metadata.deep_view())),
{
    let n = metadata.len();
    let ghost files = header_lists(metadata.deep_view());
    if n == 0 {
        proof {
            lemma_reconciliation_is(files, None);
        }
        return None;
    }
    let base = &metadata[0].headers;
    let mut same = true;
    let mut f: usize = 1;
    while f < n
        invariant
            1 <= f <= n,
            n == metadata.len(),
            files == header_lists(metadata.deep_view()),
            base == &metadata[0].headers,
            same == same_before(files, f as int),
        decreases n - f,
    {
        let here = have_same_names(&metadata[f].headers, base);
        proof {
            assert(files[f as int] == metadata[f as int].headers.deep_view());
            assert(files[0] == base.deep_view());
            if same && here {
                assert(same_before(files, f + 1));
            }
        }
        same = same && here;
        f += 1;
    }
    if same {
        proof {
            lemma_reconciliation_is(files, None);
        }
        return None;
    }
    let mut novel: Vec<Rc<String>> = Vec::new();
    proof {
        assert(novel.deep_view() =~= Seq::<Seq<char>>::empty());
    }
    f = 0;
    while f < n
        invariant
            f <= n,
            0 < n == metadata.len(),
            files == header_lists(metadata.deep_view()),
            base == &metadata[0].headers,
            strictly_sorted(novel.deep_view()),
            novel_before(novel.deep_view(), files, f as int),
        decreases n - f,
    {
        let ghost before = novel.deep_view();
        add_novel(&mut novel, base, &metadata[f].headers);
        proof {
            let now = novel.deep_view();
            assert(files[f as int] == metadata[f as int].headers.deep_view());
            assert(files[0] == base.deep_view());
            assert forall|x: Seq<char>|
                #![trigger now.contains(x)]
                #![trigger occurs_before(files, f + 1, x)]
                now.contains(x) <==> (!files[0].contains(x) && occurs_before(files, f + 1, x)) by {
                assert(now.contains(x) <==> (before.contains(x) || (files[f as int].contains(x)
                    && !files[0].contains(x))));
                assert(before.contains(x) <==> (!files[0].contains(x) && occurs_before(
                    files,
                    f as int,
                    x,
                )));
                if occurs_before(files, f as int, x) {
                    let g = choose|g: int| 0 <= g < f && (#[trigger] files[g]).contains(x);
                    assert(0 <= g < f + 1 && files[g].contains(x));
                }
                if occurs_before(files, f + 1, x) && !files[f as int].contains(x) {
                    let g = choose|g: int| 0 <= g < f + 1 && (#[trigger] files[g]).contains(x);
                    assert(0 <= g < f && files[g].contains(x));
                }
            }
        }
        f += 1;
    }
    let ghost tail = novel.deep_view();
    let mut hdr = share_all(base);
    hdr.append(&mut novel);
    proof {
        let h = hdr.deep_view();
        let first = files[0].len() as int;
        assert(files[0] == base.deep_view());
        assert(h =~= files[0] + tail);
        assert(h.take(first) =~= files[0]);
        assert(h.skip(first) =~= tail);
        assert(is_canonical(files, h));
    }
    let mut maps: Vec<Vec<usize>> = Vec::new();
    f = 0;
    while f < n
        invariant
            f <= n,
            n == metadata.len(),
            files == header_lists(metadata.deep_view()),
            is_canonical(files, hdr.deep_view()),
            maps.len() == f,
            forall|g: int|
                0 <= g < f ==> is_column_map(hdr.deep_view(), files[g], #[trigger] maps.deep_view()[g]),
        decreases n - f,
    {
        let ghost done = maps.deep_view();
        proof {
            assert(files[f as int] == metadata[f as int].headers.deep_view());
        }
        match column_map(&hdr, &metadata[f].headers) {
            Some(map) => {
                proof {
                    assert(map.deep_view() =~= map@);
                }
                maps.push(map);
                proof {
                    assert(maps.deep_view() =~= done.push(map@));
                }
            },
            None => {
                proof {
                    let j = choose|j: int|
                        0 <= j < files[f as int].len() && !hdr.deep_view().contains(
                            #[trigger] files[f as int][j],
                        );
                    lemma_canonical_covers(files, hdr.deep_view(), f as int, j);
                }
                return None;
            },
        }
        f += 1;
    }
    let combined = Combined { hdr, maps };
    proof {
        lemma_reconciliation_is(files, Some(combined@));
    }
    Some(combined)
}

/// A name has one first position in a header.
pub proof fn lemma_first_index_unique(hdr: Seq<Seq<char>>, name: Seq<char>, i: int, j: int)
    requires
        is_first_index(hdr, name, i),
        is_first_index(hdr, name, j),
    ensures
        i == j,
{
}

/// Files have one canonical header.
pub proof fn lemma_canonical_unique(files: Seq<Seq<Seq<char>>>, a: Seq<Seq<char>>, b: Seq<Seq<char>>)
    requires
        is_canonical(files, a),
        is_canonical(files, b),
    ensures
        a == b,
{
    let n = files[0].len() as int;
    assert forall|x: Seq<char>| a.skip(n).contains(x) <==> b.skip(n).contains(x) by {
        assert(a.skip(n).contains(x) <==> is_novel(files, x));
        assert(b.skip(n).contains(x) <==> is_novel(files, x));
    }
    lemma_sorted_unique(a.skip(n), b.skip(n));
    assert(a =~= a.take(n) + a.skip(n));
    assert(b =~= b.take(n) + b.skip(n));
}

/// Reconciling is deterministic: whatever is a reconciliation of the files
/// is the same canonical header with the same column maps, so that
/// reconciling a second time changes nothing.
pub proof fn lemma_reconciliation_unique(
    files: Seq<Seq<Seq<char>>>,
    a: Option<Reconciled>,
    b: Option<Reconciled>,
)
    requires
        is_reconciliation(files, a),
        is_reconciliation(files, b),
    ensures
        a == b,
{
    if a is Some {
        let x = a->0;
        let y = b->0;
        lemma_canonical_unique(files, x.hdr, y.hdr);
        assert forall|f: int| 0 <= f < files.len() implies x.maps[f] == y.maps[f] by {
            assert(is_column_map(x.hdr, files[f], x.maps[f]));
            assert(is_column_map(y.hdr, files[f], y.maps[f]));
            assert forall|j: int| 0 <= j < files[f].len() implies x.maps[f][j] == y.maps[f][j] by {
                lemma_first_index_unique(
                    x.hdr,
                    files[f][j],
                    x.maps[f][j] as int,
                    y.maps[f][j] as int,
                );
            }
            assert(x.maps[f] =~= y.maps[f]);
        }
        assert(x.maps =~= y.maps);
    }
}

/// Files whose headers hold the same names, pair by pair, take the fast
/// path: their reconciliation produces nothing.
pub proof fn lemma_equal_names_fast_path(files: Seq<Seq<Seq<char>>>, r: Option<Reconciled>)
    requires
        forall|f: int, g: int|
            0 <= f < files.len() && 0 <= g < files.len() ==> same_names(
                #[trigger] files[f],
                #[trigger] files[g],
            ),
        is_reconciliation(files, r),
    ensures
        r is None,
{
    assert(all_same(files)) by {
        assert forall|f: int| 0 <= f < files.len() implies same_names(
            #[trigger] files[f],
            files[0],
        ) by {
            assert(same_names(files[f], files[0]));
        }
    }
}

/// On the slow path every column of every file has a place in the canonical
/// header, and its column map points there: no lookup can fail.
pub proof fn lemma_every_column_resolves(
    files: Seq<Seq<Seq<char>>>,
    r: Reconciled,
    f: int,
    j: int,
)
    requires
        is_reconciliation(files, Some(r)),
        0 <= f < files.len(),
        0 <= j < files[f].len(),
    ensures
        r.hdr.contains(files[f][j]),
        0 <= r.maps[f][j] < r.hdr.len(),
        r.hdr[r.maps[f][j] as int] == files[f][j],
{
    lemma_canonical_covers(files, r.hdr, f, j);
    assert(is_column_map(r.hdr, files[f], r.maps[f]));
}

/// A canonical header names no column twice, provided the first file does
/// not.
pub proof fn lemma_canonical_no_duplicates(files: Seq<Seq<Seq<char>>>, hdr: Seq<Seq<char>>)
    requires
        is_canonical(files, hdr),
        files[0].no_duplicates(),
    ensures
        hdr.no_duplicates(),
{
    let n = files[0].len() as int;
    let tail = hdr.skip(n);
    lemma_sorted_no_duplicates(tail);
    assert forall|i: int, j: int| 0 <= i < j < hdr.len() implies hdr[i] != hdr[j] by {
        if j < n {
            assert(hdr.take(n)[i] == files[0][i] && hdr.take(n)[j] == files[0][j]);
        } else if i >= n {
            assert(tail[i - n] == hdr[i] && tail[j - n] == hdr[j]);
        } else {
            assert(hdr.take(n)[i] == files[0][i]);
            assert(files[0].contains(hdr[i]));
            assert(tail[j - n] == hdr[j]);
            assert(tail.contains(hdr[j]));
            assert(is_novel(files, hdr[j]));
        }
    }
}

/// The reconciliation of `files`: the one value that `is_reconciliation`
/// accepts for them.
pub open spec fn reconciliation(files: Seq<Seq<Seq<char>>>) -> Option<Reconciled> {
    choose|r: Option<Reconciled>| is_reconciliation(files, r)
}

/// Whatever is a reconciliation of the files is `reconciliation` of them.
pub proof fn lemma_reconciliation_is(files: Seq<Seq<Seq<char>>>, r: Option<Reconciled>)
    requires
        is_reconciliation(files, r),
    ensures
        reconciliation(files) == r,
{
    lemma_reconciliation_unique(files, reconciliation(files), r);
}

} // verus!
