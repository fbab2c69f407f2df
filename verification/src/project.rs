//! Column projection over comma-delimited rows.
//!
//! A header row gives each column name an index (a name repeated in the
//! header keeps its last position, as a map filled left to right would).
//! Every following row is rewritten to just the requested columns in the
//! requested order; a requested name absent from the header, or an index
//! past a short row, yields an empty output field rather than a failure.
//! No quoting or escaping is supported: a comma always separates fields.

use vstd::prelude::*;

verus! {

/// Index marker for a requested column that the header does not have.
pub const MISSING_COLUMN: usize = usize::MAX;

/// How often a character occurs in a string.
pub open spec fn count_char(s: Seq<char>, c: char) -> int
    decreases s.len(),
{
    if s.len() == 0 {
        0
    } else {
        count_char(s.drop_last(), c) + if s.last() == c {
            1int
        } else {
            0int
        }
    }
}

/// The views of a sequence of strings.
pub open spec fn fields_view(vs: Seq<String>) -> Seq<Seq<char>> {
    vs.map_values(|v: String| v@)
}

/// Fields joined with single commas between them.
pub open spec fn join_commas(fs: Seq<Seq<char>>) -> Seq<char>
    decreases fs.len(),
{
    if fs.len() == 0 {
        Seq::empty()
    } else if fs.len() == 1 {
        fs[0]
    } else {
        join_commas(fs.drop_last()) + seq![','] + fs.last()
    }
}

/// No comma anywhere in the field.
pub open spec fn comma_free(f: Seq<char>) -> bool {
    forall|k: int| 0 <= k < f.len() ==> f[k] != ','
}

/// The last header position carrying this name, or -1 when none does.
pub open spec fn find_last(hs: Seq<String>, name: Seq<char>) -> int
    decreases hs.len(),
{
    if hs.len() == 0 {
        -1
    } else if hs.last()@ == name {
        hs.len() - 1
    } else {
        find_last(hs.drop_last(), name)
    }
}

/// Joining one more field appends a comma and the field.
proof fn lemma_join_push(fs: Seq<Seq<char>>, x: Seq<char>)
    ensures
        join_commas(fs.push(x)) == if fs.len() == 0 {
            x
        } else {
            join_commas(fs) + seq![','] + x
        },
{
    assert(fs.push(x).drop_last() =~= fs);
    assert(fs.push(x).last() == x);
    if fs.len() == 0 {
        assert(fs.push(x)[0] == x);
    }
}

/// One more character in the scanned prefix adjusts the comma count by
/// whether it is a comma.
proof fn lemma_count_char_take_step(s: Seq<char>, c: char, k: int)
    requires
        0 <= k < s.len(),
    ensures
        count_char(s.take(k + 1), c) == count_char(s.take(k), c) + if s[k] == c {
            1int
        } else {
            0int
        },
{
    assert(s.take(k + 1).drop_last() =~= s.take(k));
    assert(s.take(k + 1).last() == s[k]);
}

/// Split a row on commas.  The result is pinned down completely: the
/// fields are comma-free, there is one more field than there are commas,
/// and joining them with commas restores the row.
pub fn split_line(s: &str) -> (r: Vec<String>)
    ensures
        r@.len() == count_char(s@, ',') + 1,
        join_commas(fields_view(r@)) == s@,
        forall|i: int| 0 <= i < r@.len() ==> comma_free(#[trigger] r@[i]@),
{
    let n: usize = s.unicode_len();
    let mut out: Vec<String> = Vec::new();
    let mut start: usize = 0;
    let mut i: usize = 0;
    while i < n
        invariant
            n == s@.len(),
            start <= i <= n,
            out@.len() == count_char(s@.take(i as int), ','),
            join_commas(fields_view(out@).push(s@.subrange(start as int, i as int))) == s@.take(
                i as int),
            comma_free(s@.subrange(start as int, i as int)),
            forall|k: int| 0 <= k < out@.len() ==> comma_free(#[trigger] out@[k]@),
        decreases n - i,
    {
        let ghost cur = s@.subrange(start as int, i as int);
        let ghost out0 = out@;
        let c = s.get_char(i);
        proof {
            lemma_count_char_take_step(s@, ',', i as int);
        }
        if c == ',' {
            let f = s.substring_char(start, i);
            out.push(f.to_owned());
            start = i + 1;
            proof {
                assert(fields_view(out@) =~= fields_view(out0).push(cur));
                assert(join_commas(fields_view(out@)) == s@.take(i as int));
                lemma_join_push(fields_view(out@), Seq::<char>::empty());
                assert(join_commas(fields_view(out@).push(Seq::<char>::empty())) =~= s@.take(
                    i + 1));
                assert(s@.subrange(i + 1, i + 1) =~= Seq::<char>::empty());
            }
        } else {
            proof {
                assert(s@.subrange(start as int, i + 1) =~= cur.push(s@[i as int]));
                lemma_join_push(fields_view(out@), cur);
                lemma_join_push(fields_view(out@), cur.push(s@[i as int]));
                assert(join_commas(fields_view(out@).push(cur.push(s@[i as int]))) =~= s@.take(
                    i + 1));
            }
        }
        i = i + 1;
    }
    let ghost out_end = out@;
    let f = s.substring_char(start, n);
    out.push(f.to_owned());
    proof {
        assert(s@.take(n as int) =~= s@);
        assert(fields_view(out@) =~= fields_view(out_end).push(
            s@.subrange(start as int, n as int)));
        assert(join_commas(fields_view(out@)) == s@.take(n as int));
    }
    out
}

/// Join fields with single commas, the inverse of [`split_line`] on
/// comma-free fields.
pub fn join_fields(fields: &Vec<String>) -> (r: String)
    ensures
        r@ == join_commas(fields_view(fields@)),
{
    let mut out = String::new();
    let mut i: usize = 0;
    while i < fields.len()
        invariant
            i <= fields@.len(),
            out@ == join_commas(fields_view(fields@.take(i as int))),
        decreases fields@.len() - i,
    {
        if i > 0 {
            out.append(",");
            proof {
                reveal_strlit(",");
                assert(","@ =~= seq![',']);
            }
        }
        out.append(fields[i].as_str());
        proof {
            assert(fields_view(fields@.take(i + 1)) =~= fields_view(fields@.take(i as int)).push(
                fields@[i as int]@));
            lemma_join_push(fields_view(fields@.take(i as int)), fields@[i as int]@);
        }
        i = i + 1;
    }
    proof {
        assert(fields@.take(fields@.len() as int) =~= fields@);
    }
    out
}

/// Position each header name was last seen at, scanning left to right.
proof fn lemma_find_last_push(hs: Seq<String>, x: String, name: Seq<char>)
    ensures
        find_last(hs.push(x), name) == if x@ == name {
            hs.len() as int
        } else {
            find_last(hs, name)
        },
{
    assert(hs.push(x).drop_last() =~= hs);
    assert(hs.push(x).last() == x);
}

/// Resolve each requested column name to its header index, or to
/// [`MISSING_COLUMN`] when the header does not carry the name.  A name the
/// header carries twice resolves to its last position.
pub fn column_indices(header: &Vec<String>, requested: &Vec<String>) -> (r: Vec<usize>)
    requires
        header@.len() < usize::MAX,
    ensures
        r@.len() == requested@.len(),
        forall|i: int| 0 <= i < r@.len() ==> #[trigger] r@[i] as int == if find_last(
            header@, requested@[i]@) >= 0 {
            find_last(header@, requested@[i]@)
        } else {
            MISSING_COLUMN as int
        },
{
    let mut r: Vec<usize> = Vec::new();
    let mut i: usize = 0;
    while i < requested.len()
        invariant
            header@.len() < usize::MAX,
            i <= requested@.len(),
            r@.len() == i,
            forall|k: int| 0 <= k < i ==> #[trigger] r@[k] as int == if find_last(
                header@, requested@[k]@) >= 0 {
                find_last(header@, requested@[k]@)
            } else {
                MISSING_COLUMN as int
            },
        decreases requested@.len() - i,
    {
        let name = &requested[i];
        let mut best: usize = MISSING_COLUMN;
        let mut j: usize = 0;
        while j < header.len()
            invariant
                header@.len() < usize::MAX,
                j <= header@.len(),
                best as int == if find_last(header@.take(j as int), name@) >= 0 {
                    find_last(header@.take(j as int), name@)
                } else {
                    MISSING_COLUMN as int
                },
            decreases header@.len() - j,
        {
            proof {
                assert(header@.take(j + 1) =~= header@.take(j as int).push(header@[j as int]));
                lemma_find_last_push(header@.take(j as int), header@[j as int], name@);
            }
            if header[j] == *name {
                best = j;
            }
            j = j + 1;
        }
        proof {
            assert(header@.take(header@.len() as int) =~= header@);
        }
        r.push(best);
        i = i + 1;
    }
    r
}

/// Copy out the requested columns of one row, in order: a missing column,
/// or one past the end of a short row, becomes an empty field.
pub fn project_row(chunks: &Vec<String>, columns: &Vec<usize>) -> (r: Vec<String>)
    ensures
        r@.len() == columns@.len(),
        forall|i: int| 0 <= i < r@.len() ==> #[trigger] r@[i]@ == if columns@[i] < chunks@.len() {
            chunks@[columns@[i] as int]@
        } else {
            Seq::<char>::empty()
        },
{
    let mut r: Vec<String> = Vec::new();
    let mut i: usize = 0;
    while i < columns.len()
        invariant
            i <= columns@.len(),
            r@.len() == i,
            forall|k: int| 0 <= k < i ==> #[trigger] r@[k]@ == if columns@[k] < chunks@.len() {
                chunks@[columns@[k] as int]@
            } else {
                Seq::<char>::empty()
            },
        decreases columns@.len() - i,
    {
        let c = columns[i];
        if c < chunks.len() {
            r.push(chunks[c].clone());
        } else {
            r.push(String::new());
        }
        i = i + 1;
    }
    r
}

} // verus!
