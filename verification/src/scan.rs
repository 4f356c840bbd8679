//! Byte scanning: finding a separator, splitting a byte string into lines or
//! whitespace-separated fields, and joining lines back. These define the text
//! shape of the corpus and of the index file.

use vstd::prelude::*;
use vstd::slice::{slice_index_get, slice_subrange, slice_to_vec};

verus! {

/// Index of the first occurrence of `c` in `s`, if any.
pub open spec fn find_byte(s: Seq<u8>, c: u8) -> Option<int>
    decreases s.len(),
{
    if s.len() == 0 {
        None
    } else if s[0] == c {
        Some(0)
    } else {
        match find_byte(s.skip(1), c) {
            Some(i) => Some(i + 1),
            None => None,
        }
    }
}

/// `find_byte` returns the first occurrence: the found index holds `c` and
/// nothing before it does; `None` means `c` does not occur.
pub proof fn lemma_find_byte(s: Seq<u8>, c: u8)
    ensures
        match find_byte(s, c) {
            Some(i) => 0 <= i < s.len() && s[i] == c && forall|j: int| 0 <= j < i ==> s[j] != c,
            None => forall|j: int| 0 <= j < s.len() ==> s[j] != c,
        },
    decreases s.len(),
{
    if s.len() != 0 && s[0] != c {
        lemma_find_byte(s.skip(1), c);
        assert forall|j: int| 0 < j < s.len() implies s.skip(1)[j - 1] == s[j] by {}
    }
}

/// If `i` is the first occurrence of `c`, `find_byte` returns it.
pub proof fn lemma_find_byte_at(s: Seq<u8>, c: u8, i: int)
    requires
        0 <= i < s.len(),
        s[i] == c,
        forall|j: int| 0 <= j < i ==> s[j] != c,
    ensures
        find_byte(s, c) == Some(i),
    decreases i,
{
    if i > 0 {
        lemma_find_byte_at(s.skip(1), c, i - 1);
    }
}

/// If `c` does not occur in `s`, `find_byte` returns `None`.
pub proof fn lemma_find_byte_none(s: Seq<u8>, c: u8)
    requires
        forall|j: int| 0 <= j < s.len() ==> s[j] != c,
    ensures
        find_byte(s, c) is None,
{
    lemma_find_byte(s, c);
    if find_byte(s, c) is Some {
        assert(s[find_byte(s, c)->Some_0] == c);
    }
}

/// Find the first occurrence of `c` at or after position `from`.
pub fn find_from(s: &[u8], from: usize, c: u8) -> (r: Option<usize>)
    requires
        from <= s@.len(),
    ensures
        match r {
            Some(i) => from <= i < s@.len() && s@[i as int] == c && forall|j: int|
                from <= j < i ==> s@[j] != c,
            None => forall|j: int| from <= j < s@.len() ==> s@[j] != c,
        },
{
    let n = s.len();
    let mut i = from;
    while i < n
        invariant
            from <= i <= n,
            n == s@.len(),
            forall|j: int| from <= j < i ==> s@[j] != c,
        decreases n - i,
    {
        if *slice_index_get(s, i) == c {
            return Some(i);
        }
        i = i + 1;
    }
    None
}

/// The lines of a byte string: pieces separated by newline bytes, with a
/// trailing newline ending the last line rather than opening an empty one.
pub open spec fn split_lines(s: Seq<u8>) -> Seq<Seq<u8>>
    decreases s.len(),
    via split_lines_dec
{
    if s.len() == 0 {
        seq![]
    } else {
        match find_byte(s, 10) {
            Some(i) => seq![s.take(i)] + split_lines(s.skip(i + 1)),
            None => seq![s],
        }
    }
}

#[via_fn]
proof fn split_lines_dec(s: Seq<u8>) {
    lemma_find_byte(s, 10);
}

/// The non-empty fields of a byte string, separated by runs of spaces.
pub open spec fn split_fields(s: Seq<u8>) -> Seq<Seq<u8>>
    decreases s.len(),
    via split_fields_dec
{
    if s.len() == 0 {
        seq![]
    } else if s[0] == 32 {
        split_fields(s.skip(1))
    } else {
        match find_byte(s, 32) {
            Some(i) => seq![s.take(i)] + split_fields(s.skip(i + 1)),
            None => seq![s],
        }
    }
}

#[via_fn]
proof fn split_fields_dec(s: Seq<u8>) {
    lemma_find_byte(s, 32);
}

/// No line produced by splitting holds a newline byte.
pub proof fn lemma_split_lines_clean(s: Seq<u8>)
    ensures
        forall|i: int, j: int|
            0 <= i < split_lines(s).len() && 0 <= j < split_lines(s)[i].len()
                ==> #[trigger] split_lines(s)[i][j] != 10,
    decreases s.len(),
{
    if s.len() != 0 {
        lemma_find_byte(s, 10);
        match find_byte(s, 10) {
            Some(k) => {
                lemma_split_lines_clean(s.skip(k + 1));
                assert forall|i: int, j: int|
                    0 <= i < split_lines(s).len() && 0 <= j < split_lines(s)[i].len()
                        implies #[trigger] split_lines(s)[i][j] != 10 by {
                    if i == 0 {
                        assert(split_lines(s)[0] == s.take(k));
                        assert(s.take(k)[j] == s[j]);
                    } else {
                        assert(split_lines(s)[i] == split_lines(s.skip(k + 1))[i - 1]);
                    }
                }
            },
            None => {
                assert(split_lines(s) == seq![s]);
            },
        }
    }
}

/// Lines joined back into a byte string, each line ended by a newline.
pub open spec fn join_lines(lines: Seq<Seq<u8>>) -> Seq<u8>
    decreases lines.len(),
{
    if lines.len() == 0 {
        seq![]
    } else {
        lines[0] + seq![10u8] + join_lines(lines.skip(1))
    }
}

/// Joining then splitting gives the lines back, provided no line holds a
/// newline byte.
pub proof fn lemma_split_join(lines: Seq<Seq<u8>>)
    requires
        forall|i: int, j: int|
            0 <= i < lines.len() && 0 <= j < lines[i].len() ==> #[trigger] lines[i][j] != 10,
    ensures
        split_lines(join_lines(lines)) == lines,
    decreases lines.len(),
{
    if lines.len() == 0 {
        assert(split_lines(join_lines(lines)) =~= lines);
    } else {
        let first = lines[0];
        let rest = join_lines(lines.skip(1));
        let s = join_lines(lines);
        assert(s == first + seq![10u8] + rest);
        assert(s.len() > 0);
        assert(s[first.len() as int] == 10);
        assert forall|j: int| 0 <= j < first.len() implies s[j] != 10 by {
            assert(s[j] == first[j]);
        }
        lemma_find_byte_at(s, 10, first.len() as int);
        assert(s.take(first.len() as int) =~= first);
        assert(s.skip(first.len() as int + 1) =~= rest);
        assert forall|i: int, j: int|
            0 <= i < lines.skip(1).len() && 0 <= j < lines.skip(1)[i].len() implies #[trigger] lines
            .skip(1)[i][j] != 10 by {
            assert(lines.skip(1)[i] == lines[i + 1]);
        }
        lemma_split_join(lines.skip(1));
        assert(split_lines(s) =~= lines);
    }
}

/// Appending a line to a joined text appends the line and a newline.
pub proof fn lemma_join_push(lines: Seq<Seq<u8>>, l: Seq<u8>)
    ensures
        join_lines(lines.push(l)) == join_lines(lines) + l + seq![10u8],
    decreases lines.len(),
{
    if lines.len() == 0 {
        assert(lines.push(l).skip(1) =~= Seq::<Seq<u8>>::empty());
        assert(join_lines(Seq::<Seq<u8>>::empty()) == Seq::<u8>::empty());
        assert(lines.push(l)[0] == l);
        assert(join_lines(lines.push(l)) == lines.push(l)[0] + seq![10u8] + join_lines(
            lines.push(l).skip(1),
        ));
        assert(join_lines(lines.push(l)) =~= join_lines(lines) + l + seq![10u8]);
    } else {
        assert(lines.push(l).skip(1) =~= lines.skip(1).push(l));
        lemma_join_push(lines.skip(1), l);
        assert(lines.push(l)[0] == lines[0]);
        assert(join_lines(lines.push(l)) == lines.push(l)[0] + seq![10u8] + join_lines(
            lines.push(l).skip(1),
        ));
        assert(join_lines(lines.push(l)) =~= join_lines(lines) + l + seq![10u8]);
    }
}

/// Split a byte string into its lines.
pub fn split_lines_vec(s: &[u8]) -> (r: Vec<Vec<u8>>)
    ensures
        r@.map_values(|l: Vec<u8>| l@) == split_lines(s@),
{
    let mut out: Vec<Vec<u8>> = Vec::new();
    let mut pos: usize = 0;
    let n = s.len();
    proof {
        assert(s@.skip(0) =~= s@);
        assert(out@.map_values(|l: Vec<u8>| l@) + split_lines(s@) =~= split_lines(s@));
    }
    while pos < n
        invariant
            pos <= n,
            n == s@.len(),
            split_lines(s@) == out@.map_values(|l: Vec<u8>| l@) + split_lines(
                s@.skip(pos as int),
            ),
        decreases n - pos,
    {
        let ghost prev = out@.map_values(|l: Vec<u8>| l@);
        let ghost tail = s@.skip(pos as int);
        match find_from(s, pos, 10) {
            Some(i) => {
                out.push(slice_to_vec(slice_subrange(s, pos, i)));
                proof {
                    assert forall|j: int| 0 <= j < i - pos implies tail[j] != 10 by {
                        assert(tail[j] == s@[pos + j]);
                    }
                    assert(tail[i - pos] == s@[i as int]);
                    lemma_find_byte_at(tail, 10, i - pos);
                    assert(tail.take(i - pos) =~= s@.subrange(pos as int, i as int));
                    assert(tail.skip(i - pos + 1) =~= s@.skip(i + 1));
                    assert(out@.map_values(|l: Vec<u8>| l@) =~= prev.push(
                        s@.subrange(pos as int, i as int),
                    ));
                    assert(prev + split_lines(tail) =~= out@.map_values(|l: Vec<u8>| l@)
                        + split_lines(s@.skip(i + 1)));
                }
                pos = i + 1;
            },
            None => {
                out.push(slice_to_vec(slice_subrange(s, pos, n)));
                proof {
                    assert forall|j: int| 0 <= j < tail.len() implies tail[j] != 10 by {
                        assert(tail[j] == s@[pos + j]);
                    }
                    lemma_find_byte_none(tail, 10);
                    assert(tail =~= s@.subrange(pos as int, n as int));
                    assert(out@.map_values(|l: Vec<u8>| l@) =~= prev.push(tail));
                    assert(s@.skip(n as int) =~= Seq::<u8>::empty());
                    assert(prev + split_lines(tail) =~= out@.map_values(|l: Vec<u8>| l@)
                        + split_lines(s@.skip(n as int)));
                }
                pos = n;
            },
        }
    }
    proof {
        assert(s@.skip(pos as int) =~= Seq::<u8>::empty());
        assert(split_lines(s@) =~= out@.map_values(|l: Vec<u8>| l@));
    }
    out
}

/// Split a byte string into its space-separated fields.
pub fn split_fields_vec(s: &[u8]) -> (r: Vec<Vec<u8>>)
    ensures
        r@.map_values(|t: Vec<u8>| t@) == split_fields(s@),
{
    let mut out: Vec<Vec<u8>> = Vec::new();
    let mut pos: usize = 0;
    let n = s.len();
    proof {
        assert(s@.skip(0) =~= s@);
        assert(out@.map_values(|t: Vec<u8>| t@) + split_fields(s@) =~= split_fields(s@));
    }
    while pos < n
        invariant
            pos <= n,
            n == s@.len(),
            split_fields(s@) == out@.map_values(|t: Vec<u8>| t@) + split_fields(
                s@.skip(pos as int),
            ),
        decreases n - pos,
    {
        let ghost prev = out@.map_values(|t: Vec<u8>| t@);
        let ghost tail = s@.skip(pos as int);
        if *slice_index_get(s, pos) == 32 {
            proof {
                assert(tail[0] == s@[pos as int]);
                assert(tail.skip(1) =~= s@.skip(pos + 1));
            }
            pos = pos + 1;
        } else {
            match find_from(s, pos + 1, 32) {
                Some(i) => {
                    out.push(slice_to_vec(slice_subrange(s, pos, i)));
                    proof {
                        assert(tail[0] == s@[pos as int]);
                        assert forall|j: int| 0 <= j < i - pos implies tail[j] != 32 by {
                            assert(tail[j] == s@[pos + j]);
                        }
                        assert(tail[i - pos] == s@[i as int]);
                        lemma_find_byte_at(tail, 32, i - pos);
                        assert(tail.take(i - pos) =~= s@.subrange(pos as int, i as int));
                        assert(tail.skip(i - pos + 1) =~= s@.skip(i + 1));
                        assert(out@.map_values(|t: Vec<u8>| t@) =~= prev.push(
                            s@.subrange(pos as int, i as int),
                        ));
                        assert(prev + split_fields(tail) =~= out@.map_values(|t: Vec<u8>| t@)
                            + split_fields(s@.skip(i + 1)));
                    }
                    pos = i + 1;
                },
                None => {
                    out.push(slice_to_vec(slice_subrange(s, pos, n)));
                    proof {
                        assert(tail[0] == s@[pos as int]);
                        assert forall|j: int| 0 <= j < tail.len() implies tail[j] != 32 by {
                            assert(tail[j] == s@[pos + j]);
                        }
                        lemma_find_byte_none(tail, 32);
                        assert(tail =~= s@.subrange(pos as int, n as int));
                        assert(out@.map_values(|t: Vec<u8>| t@) =~= prev.push(tail));
                        assert(s@.skip(n as int) =~= Seq::<u8>::empty());
                        assert(prev + split_fields(tail) =~= out@.map_values(|t: Vec<u8>| t@)
                            + split_fields(s@.skip(n as int)));
                    }
                    pos = n;
                },
            }
        }
    }
    proof {
        assert(s@.skip(pos as int) =~= Seq::<u8>::empty());
        assert(split_fields(s@) =~= out@.map_values(|t: Vec<u8>| t@));
    }
    out
}

/// Byte-wise equality of two slices.
pub fn bytes_eq(a: &[u8], b: &[u8]) -> (r: bool)
    ensures
        r == (a@ == b@),
{
    if a.len() != b.len() {
        return false;
    }
    let n = a.len();
    let mut i: usize = 0;
    while i < n
        invariant
            i <= n,
            n == a@.len() == b@.len(),
            forall|j: int| 0 <= j < i ==> a@[j] == b@[j],
        decreases n - i,
    {
        if *slice_index_get(a, i) != *slice_index_get(b, i) {
            return false;
        }
        i = i + 1;
    }
    proof {
        assert(a@ =~= b@);
    }
    true
}

} // verus!
