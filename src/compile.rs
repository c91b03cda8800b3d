use vstd::prelude::*;

use crate::registry::{get_registry, registry_of_code};
use crate::table::{
    clean, clean_string, find, has_key, keys_unique, lemma_find, views, OuiData, OuiDataView,
    OuiDb,
};
use crate::text::{ascii_upper_seq, chars_of, string_of, to_ascii_uppercase};
use vstd::seq_lib::lemma_flatten_concat;

verus! {

/// Why a row of a registry export cannot be compiled.
#[derive(Debug, Clone, Copy, PartialEq, Eq, Structural)]
pub enum RowError {
    /// The row has fewer than three fields.
    MissingField,
    /// The row's registry code is none of the five recognized codes.
    UnknownRegistry,
}

/// The first row of the sources that could not be compiled: which source,
/// which row of it, and why.
#[derive(Debug, Clone, Copy, PartialEq, Eq, Structural)]
pub struct CompileError {
    pub source: usize,
    pub row: usize,
    pub kind: RowError,
}

/// A compiled table, with the records that were discarded because an
/// earlier record had their key, in the order they were met.
pub struct Compiled {
    pub table: OuiDb,
    pub discarded: Vec<OuiData>,
}

/// Why a row (its fields: registry code, assignment key, organization name,
/// then any others) cannot be compiled, if it cannot.
pub open spec fn row_error(fields: Seq<Seq<char>>) -> Option<RowError> {
    if fields.len() < 3 {
        Some(RowError::MissingField)
    } else if registry_of_code(fields[0]) is None {
        Some(RowError::UnknownRegistry)
    } else {
        None
    }
}

/// The record that a valid row compiles to: its registry, its key in upper
/// case, and its organization name normalized.
pub open spec fn row_record(fields: Seq<Seq<char>>) -> OuiDataView {
    OuiDataView {
        registry: registry_of_code(fields[0])->0,
        oui: ascii_upper_seq(fields[1]),
        organization: clean(fields[2]),
    }
}

/// The records of a sequence of valid rows.
pub open spec fn records_of(rows: Seq<Seq<Seq<char>>>) -> Seq<OuiDataView> {
    rows.map_values(|f: Seq<Seq<char>>| row_record(f))
}

/// The table built from `recs` in order: a record is kept when no record
/// kept before it has its key.
pub open spec fn accepted(recs: Seq<OuiDataView>) -> Seq<OuiDataView>
    decreases recs.len(),
{
    if recs.len() == 0 {
        Seq::empty()
    } else {
        let t = accepted(recs.drop_last());
        if has_key(t, recs.last().oui) {
            t
        } else {
            t.push(recs.last())
        }
    }
}

/// The records of `recs` that `accepted` leaves out, in order.
pub open spec fn discarded(recs: Seq<OuiDataView>) -> Seq<OuiDataView>
    decreases recs.len(),
{
    if recs.len() == 0 {
        Seq::empty()
    } else {
        let d = discarded(recs.drop_last());
        if has_key(accepted(recs.drop_last()), recs.last().oui) {
            d.push(recs.last())
        } else {
            d
        }
    }
}

/// Whether row `row` of source `source` comes before row `r` of source `s`
/// in processing order: sources in the order given, rows in file order.
pub open spec fn before(source: int, row: int, s: int, r: int) -> bool {
    source < s || (source == s && row < r)
}

/// Whether every row of the sources that comes before row `r` of source `s`
/// can be compiled.
pub open spec fn valid_before(sources: Seq<Seq<Seq<Seq<char>>>>, s: int, r: int) -> bool {
    forall|a: int, b: int|
        0 <= a < sources.len() && 0 <= b < sources[a].len() && before(a, b, s, r)
            ==> row_error(#[trigger] sources[a][b]) is None
}

/// Whether every row of the sources can be compiled.
pub open spec fn all_valid(sources: Seq<Seq<Seq<Seq<char>>>>) -> bool {
    forall|a: int, b: int|
        0 <= a < sources.len() && 0 <= b < sources[a].len() ==> row_error(
            #[trigger] sources[a][b],
        ) is None
}

/// The table that valid sources compile to.
pub open spec fn compiled_table(sources: Seq<Seq<Seq<Seq<char>>>>) -> Seq<OuiDataView> {
    accepted(records_of(sources.flatten()))
}

/// The records that compiling valid sources discards.
pub open spec fn compiled_discards(sources: Seq<Seq<Seq<Seq<char>>>>) -> Seq<OuiDataView> {
    discarded(records_of(sources.flatten()))
}

/// The table that `accepted` builds has unique keys.
pub proof fn lemma_accepted_unique(recs: Seq<OuiDataView>)
    ensures
        keys_unique(accepted(recs)),
    decreases recs.len(),
{
    if recs.len() > 0 {
        let t = accepted(recs.drop_last());
        lemma_accepted_unique(recs.drop_last());
        lemma_find(t, recs.last().oui);
    }
}

/// Compiles one row into a record, or says why it cannot be compiled.
pub fn compile_row(fields: &Vec<String>) -> (r: Result<OuiData, RowError>)
    ensures
        match r {
            Ok(d) => row_error(fields.deep_view()) is None && d@ == row_record(fields.deep_view()),
            Err(e) => row_error(fields.deep_view()) == Some(e),
        },
{
    if fields.len() < 3 {
        return Err(RowError::MissingField);
    }
    assert(fields.deep_view()[0] == fields@[0]@);
    assert(fields.deep_view()[1] == fields@[1]@);
    assert(fields.deep_view()[2] == fields@[2]@);
    let registry = match get_registry(fields[0].as_str()) {
        Some(reg) => reg,
        None => {
            return Err(RowError::UnknownRegistry);
        },
    };
    let key = to_ascii_uppercase(&chars_of(fields[1].as_str()));
    let organization = clean_string(fields[2].as_str());
    Ok(OuiData::from_parts(registry, string_of(&key), organization))
}

/// Compiles the rows of the registries' exports into one table. Sources are
/// processed in the order given and each source's rows in order; a record
/// whose key was already taken is discarded, so the first one seen wins. A
/// row that cannot be compiled fails the whole compilation, and the error
/// names the first such row.
pub fn compile(sources: &Vec<Vec<Vec<String>>>) -> (r: Result<Compiled, CompileError>)
    ensures
        match r {
            Ok(c) => {
                &&& all_valid(sources.deep_view())
                &&& c.table.wf()
                &&& keys_unique(c.table@)
                &&& c.table@ == compiled_table(sources.deep_view())
                &&& views(c.discarded@) == compiled_discards(sources.deep_view())
            },
            Err(e) => {
                &&& e.source < sources.deep_view().len()
                &&& e.row < sources.deep_view()[e.source as int].len()
                &&& row_error(sources.deep_view()[e.source as int][e.row as int]) == Some(e.kind)
                &&& valid_before(sources.deep_view(), e.source as int, e.row as int)
            },
        },
{
    let ghost src = sources.deep_view();
    let mut table = OuiDb::new();
    let mut dropped: Vec<OuiData> = Vec::new();
    let ghost mut done: Seq<Seq<Seq<char>>> = Seq::empty();
    let mut s: usize = 0;
    assert(src.take(0).flatten() =~= Seq::<Seq<Seq<char>>>::empty());
    while s < sources.len()
        invariant
            src == sources.deep_view(),
            s <= sources.len() == src.len(),
            valid_before(src, s as int, 0),
            table.wf(),
            done == src.take(s as int).flatten(),
            table@ == accepted(records_of(done)),
            views(dropped@) == discarded(records_of(done)),
        decreases sources.len() - s,
    {
        let rows = &sources[s];
        assert(rows.deep_view() == src[s as int]);
        let mut i: usize = 0;
        let ghost start = done;
        assert(src[s as int].take(0) =~= Seq::<Seq<Seq<char>>>::empty());
        assert(start + src[s as int].take(0) =~= start);
        while i < rows.len()
            invariant
                src == sources.deep_view(),
                s < sources.len() == src.len(),
                rows.deep_view() == src[s as int],
                i <= rows.len(),
                valid_before(src, s as int, i as int),
                table.wf(),
                start == src.take(s as int).flatten(),
                done == start + src[s as int].take(i as int),
                table@ == accepted(records_of(done)),
                views(dropped@) == discarded(records_of(done)),
            decreases rows.len() - i,
        {
            assert(rows.deep_view()[i as int] == rows@[i as int].deep_view());
            let rec = match compile_row(&rows[i]) {
                Ok(d) => d,
                Err(kind) => {
                    return Err(CompileError { source: s, row: i, kind });
                },
            };
            let ghost prev = done;
            proof {
                done = done.push(src[s as int][i as int]);
                assert(done =~= start + src[s as int].take(i + 1));
                assert(records_of(done) =~= records_of(prev).push(rec@));
                assert(records_of(done).drop_last() =~= records_of(prev));
            }
            let key = chars_of(rec.oui());
            match table.find_index(key.as_slice()) {
                Some(_) => {
                    dropped.push(rec);
                    assert(views(dropped@) =~= discarded(records_of(prev)).push(rec@));
                },
                None => {
                    table.push(rec);
                },
            }
            i = i + 1;
            assert forall|a: int, b: int|
                0 <= a < src.len() && 0 <= b < src[a].len() && before(
                    a,
                    b,
                    s as int,
                    i as int,
                ) implies row_error(#[trigger] src[a][b]) is None by {
                if !(a == s && b == i - 1) {
                    assert(before(a, b, s as int, i - 1));
                }
            }
        }
        proof {
            assert(src[s as int].take(i as int) =~= src[s as int]);
            assert(src.take(s + 1) =~= src.take(s as int).push(src[s as int]));
            src.take(s as int).lemma_flatten_push(src[s as int]);
        }
        s = s + 1;
        assert forall|a: int, b: int|
            0 <= a < src.len() && 0 <= b < src[a].len() && before(a, b, s as int, 0) implies row_error(
            #[trigger] src[a][b],
        ) is None by {
            assert(before(a, b, s - 1, i as int));
        }
    }
    assert(src.take(s as int) =~= src);
    assert forall|a: int, b: int|
        0 <= a < src.len() && 0 <= b < src[a].len() implies row_error(
        #[trigger] src[a][b],
    ) is None by {
        assert(before(a, b, s as int, 0));
    }
    proof {
        table.lemma_wf_keys_unique();
    }
    Ok(Compiled { table, discarded: dropped })
}

/// Finding a key in a table with one more record at its end.
proof fn lemma_find_push(t: Seq<OuiDataView>, x: OuiDataView, k: Seq<char>)
    ensures
        find(t.push(x), k) == (if find(t, k) is Some {
            find(t, k)
        } else if x.oui == k {
            Some(x)
        } else {
            None
        }),
    decreases t.len(),
{
    if t.len() > 0 {
        assert(t.push(x)[0] == t[0]);
        assert(t.push(x).drop_first() =~= t.drop_first().push(x));
        lemma_find_push(t.drop_first(), x, k);
    } else {
        assert(t.push(x)[0] == x);
        assert(t.push(x).drop_first() =~= Seq::<OuiDataView>::empty());
        assert(find(Seq::<OuiDataView>::empty(), k) is None);
    }
}

/// Once a key is in the table, later records do not change what it finds.
proof fn lemma_accepted_keeps(recs: Seq<OuiDataView>, post: Seq<OuiDataView>, k: Seq<char>)
    requires
        has_key(accepted(recs), k),
    ensures
        find(accepted(recs + post), k) == find(accepted(recs), k),
    decreases post.len(),
{
    if post.len() == 0 {
        assert(recs + post =~= recs);
    } else {
        let shorter = recs + post.drop_last();
        lemma_accepted_keeps(recs, post.drop_last(), k);
        assert((recs + post).drop_last() =~= shorter);
        assert((recs + post).last() == post.last());
        lemma_find_push(accepted(shorter), post.last(), k);
    }
}

/// Every key of the table is the key of one of the records it was built
/// from.
proof fn lemma_accepted_from(recs: Seq<OuiDataView>, k: Seq<char>)
    requires
        has_key(accepted(recs), k),
    ensures
        exists|q: int| 0 <= q < recs.len() && recs[q].oui == k,
    decreases recs.len(),
{
    if recs.len() > 0 {
        let t = accepted(recs.drop_last());
        lemma_find_push(t, recs.last(), k);
        if has_key(t, k) {
            lemma_accepted_from(recs.drop_last(), k);
            let q = choose|q: int| 0 <= q < recs.len() - 1 && recs.drop_last()[q].oui == k;
            assert(recs[q] == recs.drop_last()[q]);
        } else {
            assert(recs[recs.len() - 1].oui == k);
        }
    }
}

/// The first record with a key is the one the table holds for it.
proof fn lemma_first_record_kept(recs: Seq<OuiDataView>, p: int)
    requires
        0 <= p < recs.len(),
        forall|q: int| 0 <= q < p ==> recs[q].oui != recs[p].oui,
    ensures
        find(accepted(recs), recs[p].oui) == Some(recs[p]),
{
    let k = recs[p].oui;
    let pre = recs.take(p + 1);
    assert(pre.drop_last() =~= recs.take(p));
    if has_key(accepted(recs.take(p)), k) {
        lemma_accepted_from(recs.take(p), k);
        let q = choose|q: int| 0 <= q < p && recs.take(p)[q].oui == k;
        assert(recs[q].oui == k);
    }
    lemma_find_push(accepted(recs.take(p)), recs[p], k);
    assert(pre + recs.skip(p + 1) =~= recs);
    lemma_accepted_keeps(pre, recs.skip(p + 1), k);
}

/// Each row of a flattened sequence is a row of one of its parts.
proof fn lemma_flatten_elem(seqs: Seq<Seq<Seq<Seq<char>>>>, q: int)
    requires
        0 <= q < seqs.flatten().len(),
    ensures
        exists|x: int, y: int|
            0 <= x < seqs.len() && 0 <= y < seqs[x].len() && seqs.flatten()[q] == seqs[x][y],
    decreases seqs.len(),
{
    if seqs.len() > 0 {
        let init = seqs.drop_last();
        assert(init.push(seqs.last()) =~= seqs);
        init.lemma_flatten_push(seqs.last());
        if q < init.flatten().len() {
            lemma_flatten_elem(init, q);
            let (x, y) = choose|x: int, y: int|
                0 <= x < init.len() && 0 <= y < init[x].len() && init.flatten()[q] == init[x][y];
            assert(seqs[x] == init[x]);
        } else {
            let y = q - init.flatten().len();
            assert(seqs.flatten()[q] == seqs[seqs.len() - 1][y]);
        }
    }
}

/// Of two rows with the same key in different sources, the table holds the
/// one of the source processed first, and it holds one record with that key.
/// Here the earlier row is the first row with its key in processing order.
pub proof fn lemma_earlier_source_wins(
    sources: Seq<Seq<Seq<Seq<char>>>>,
    a: int,
    i: int,
    b: int,
    j: int,
)
    requires
        0 <= a < b < sources.len(),
        0 <= i < sources[a].len(),
        0 <= j < sources[b].len(),
        row_record(sources[a][i]).oui == row_record(sources[b][j]).oui,
        forall|x: int, y: int|
            0 <= x < sources.len() && 0 <= y < sources[x].len() && before(x, y, a, i)
                ==> row_record(sources[x][y]).oui != row_record(sources[a][i]).oui,
    ensures
        find(compiled_table(sources), row_record(sources[a][i]).oui) == Some(
            row_record(sources[a][i]),
        ),
        forall|m: int, n: int|
            0 <= m < compiled_table(sources).len() && 0 <= n < compiled_table(sources).len()
                && compiled_table(sources)[m].oui == row_record(sources[b][j]).oui
                && compiled_table(sources)[n].oui == row_record(sources[b][j]).oui ==> m == n,
{
    let key = row_record(sources[a][i]).oui;
    let head = sources.take(a);
    let tail = sources.skip(a + 1);
    let pre = head.flatten();
    assert(sources =~= head.push(sources[a]) + tail);
    lemma_flatten_concat(head.push(sources[a]), tail);
    head.lemma_flatten_push(sources[a]);
    let flat = sources.flatten();
    assert(flat =~= pre + sources[a] + tail.flatten());
    let recs = records_of(flat);
    let p = pre.len() + i;
    assert(flat[p] == sources[a][i]);
    assert forall|q: int| 0 <= q < p implies recs[q].oui != recs[p].oui by {
        if q < pre.len() {
            lemma_flatten_elem(head, q);
            let (x, y) = choose|x: int, y: int|
                0 <= x < head.len() && 0 <= y < head[x].len() && head.flatten()[q] == head[x][y];
            assert(head[x] == sources[x]);
            assert(flat[q] == sources[x][y]);
            assert(before(x, y, a, i));
        } else {
            assert(flat[q] == sources[a][q - pre.len()]);
            assert(before(a, q - pre.len(), a, i));
        }
    }
    lemma_first_record_kept(recs, p);
    lemma_accepted_unique(recs);
}

} // verus!
