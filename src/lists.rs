//! Readers of the count-then-data list files: scalars, faces and points.
use vstd::prelude::*;
use crate::error::FoamError;
use crate::number::{parse_signed, parse_unsigned, signed_of, unsigned_of};
use crate::text::{chars_of, lines_of, runs, runs_in, split_lines, string_of, views};

verus! {

/// The lines of `t` that follow the first `skip` ones.
pub open spec fn body(t: Seq<char>, skip: int) -> Seq<Seq<char>> {
    let ls = lines_of(t);
    if skip < ls.len() {
        ls.skip(skip)
    } else {
        seq![]
    }
}

/// The lines of `text`, and where the body after `skip` lines starts.
pub fn body_lines(text: &str, skip: usize) -> (r: (Vec<Vec<char>>, usize))
    ensures
        views(r.0@) == lines_of(text@),
        r.1 <= r.0@.len(),
        body(text@, skip as int) == views(r.0@).skip(r.1 as int),
        r.1 < r.0@.len() ==> r.1 == skip,
{
    let t = chars_of(text);
    let ls = split_lines(t.as_slice());
    if skip < ls.len() {
        (ls, skip)
    } else {
        let n = ls.len();
        assert(views(ls@).skip(n as int) =~= seq![]);
        (ls, n)
    }
}

/// Scans list lines: the first line that reads as a positive count opens
/// the data; each later line that `dec` reads is a value.
pub open spec fn scan_values<T>(ls: Seq<Seq<char>>, dec: spec_fn(Seq<char>) -> Option<T>) -> (
    usize,
    Seq<T>,
)
    decreases ls.len(),
{
    if ls.len() == 0 {
        (0usize, seq![])
    } else {
        let (n, d) = scan_values(ls.drop_last(), dec);
        let l = ls.last();
        if n > 0 {
            match dec(l) {
                Some(v) => (n, d.push(v)),
                None => (n, d),
            }
        } else {
            match unsigned_of(l) {
                Some(k) => (k, d),
                None => (n, d),
            }
        }
    }
}

/// The outcome of a list read: the values when their number is the
/// declared one, else a count mismatch.
pub open spec fn list_outcome<T>(scan: (usize, Seq<T>)) -> Result<Seq<T>, FoamError> {
    if scan.1.len() == scan.0 {
        Ok(scan.1)
    } else {
        Err(FoamError::CountMismatch { expected: scan.0, found: scan.1.len() as usize })
    }
}

/// `r` is the outcome `s`.
pub open spec fn same_outcome<T>(r: Result<Vec<T>, FoamError>, s: Result<Seq<T>, FoamError>) -> bool {
    match r {
        Ok(v) => s == Ok::<Seq<T>, FoamError>(v@),
        Err(e) => s == Err::<Seq<T>, FoamError>(e),
    }
}

pub open spec fn unsigned_dec() -> spec_fn(Seq<char>) -> Option<usize> {
    |l: Seq<char>| unsigned_of(l)
}

pub open spec fn signed_dec() -> spec_fn(Seq<char>) -> Option<i64> {
    |l: Seq<char>| signed_of(l)
}

proof fn lemma_scan_empty<T>(ls: Seq<Seq<char>>, dec: spec_fn(Seq<char>) -> Option<T>)
    ensures
        scan_values(ls, dec).0 == 0 ==> scan_values(ls, dec).1.len() == 0,
        scan_values(ls, dec).1.len() <= ls.len(),
    decreases ls.len(),
{
    if ls.len() > 0 {
        lemma_scan_empty(ls.drop_last(), dec);
    }
}

/// Reads a list of unsigned integers: after `skip` header lines, the first
/// line holding a positive count, then one value per line; lines that are
/// not a value are passed over.
pub fn parse_scalars(text: &str, skip: usize) -> (r: Result<Vec<usize>, FoamError>)
    ensures
        same_outcome(r, list_outcome(scan_values(body(text@, skip as int), unsigned_dec()))),
{
    let (ls, start) = body_lines(text, skip);
    let ghost all = views(ls@);
    let mut n: usize = 0;
    let mut data: Vec<usize> = Vec::new();
    let mut j: usize = start;
    assert(all.subrange(start as int, start as int) =~= seq![]);
    while j < ls.len()
        invariant
            start <= j <= ls@.len(),
            all == views(ls@),
            (n, data@) == scan_values(all.subrange(start as int, j as int), unsigned_dec()),
        decreases ls@.len() - j,
    {
        assert(all.subrange(start as int, j + 1).drop_last() =~= all.subrange(start as int, j as int));
        let line = ls[j].as_slice();
        if n > 0 {
            if let Some(v) = parse_unsigned(line) {
                data.push(v);
            }
        } else if let Some(k) = parse_unsigned(line) {
            n = k;
        }
        j += 1;
    }
    assert(all.subrange(start as int, ls@.len() as int) =~= all.skip(start as int));
    proof {
        lemma_scan_empty(all.skip(start as int), unsigned_dec());
    }
    if data.len() != n {
        return Err(FoamError::CountMismatch { expected: n, found: data.len() });
    }
    Ok(data)
}

/// Reads a list of signed integers, in the same layout as `parse_scalars`.
pub fn parse_signed_scalars(text: &str, skip: usize) -> (r: Result<Vec<i64>, FoamError>)
    ensures
        same_outcome(r, list_outcome(scan_values(body(text@, skip as int), signed_dec()))),
{
    let (ls, start) = body_lines(text, skip);
    let ghost all = views(ls@);
    let mut n: usize = 0;
    let mut data: Vec<i64> = Vec::new();
    let mut j: usize = start;
    assert(all.subrange(start as int, start as int) =~= seq![]);
    while j < ls.len()
        invariant
            start <= j <= ls@.len(),
            all == views(ls@),
            (n, data@) == scan_values(all.subrange(start as int, j as int), signed_dec()),
        decreases ls@.len() - j,
    {
        assert(all.subrange(start as int, j + 1).drop_last() =~= all.subrange(start as int, j as int));
        let line = ls[j].as_slice();
        if n > 0 {
            if let Some(v) = parse_signed(line) {
                data.push(v);
            }
        } else if let Some(k) = parse_unsigned(line) {
            n = k;
        }
        j += 1;
    }
    assert(all.subrange(start as int, ls@.len() as int) =~= all.skip(start as int));
    proof {
        lemma_scan_empty(all.skip(start as int), signed_dec());
    }
    if data.len() != n {
        return Err(FoamError::CountMismatch { expected: n, found: data.len() });
    }
    Ok(data)
}

/// The values of the runs, where each fits a `usize`.
pub open spec fn run_values(rs: Seq<Seq<char>>) -> Option<Seq<usize>> {
    if forall|i: int| 0 <= i < rs.len() ==> (#[trigger] unsigned_of(rs[i])) is Some {
        Some(rs.map_values(|r: Seq<char>| unsigned_of(r)->0))
    } else {
        None
    }
}

/// The numbers in a line, read from its runs of digits.
pub fn numbers_in(s: &[char]) -> (r: Option<Vec<usize>>)
    ensures
        match r {
            Some(v) => run_values(runs(s@, true)) == Some(v@),
            None => run_values(runs(s@, true)) is None,
        },
{
    let found = runs_in(s, true);
    let ghost rs = views(found@);
    let mut vals: Vec<usize> = Vec::new();
    let mut i: usize = 0;
    while i < found.len()
        invariant
            rs == views(found@),
            rs == runs(s@, true),
            i <= found@.len(),
            vals@.len() == i,
            forall|k: int| 0 <= k < i ==> unsigned_of(#[trigger] rs[k]) == Some(vals@[k]),
        decreases found@.len() - i,
    {
        match parse_unsigned(found[i].as_slice()) {
            Some(v) => vals.push(v),
            None => {
                assert(unsigned_of(rs[i as int]) is None);
                return None;
            },
        }
        i += 1;
    }
    assert(rs.map_values(|r: Seq<char>| unsigned_of(r)->0) =~= vals@);
    Some(vals)
}

/// What a face line adds, once the count is known: `Ok(None)` for a line
/// without numbers, `Ok(Some(f))` for a face, `Err(())` for a line whose
/// first number is not the number of indices after it.
pub open spec fn face_line(l: Seq<char>) -> Result<Option<Seq<usize>>, ()> {
    match run_values(runs(l, true)) {
        Some(v) => if v.len() == 0 {
            Ok(None)
        } else if v.len() - 1 == v[0] {
            Ok(Some(v.drop_first()))
        } else {
            Err(())
        },
        None => Err(()),
    }
}

/// Scans face lines: the declared count, the faces, and the index of the
/// first malformed line.
pub open spec fn scan_faces(ls: Seq<Seq<char>>) -> (usize, Seq<Seq<usize>>, Option<int>)
    decreases ls.len(),
{
    if ls.len() == 0 {
        (0usize, seq![], None)
    } else {
        let (n, d, bad) = scan_faces(ls.drop_last());
        let l = ls.last();
        if bad is Some {
            (n, d, bad)
        } else if n > 0 {
            match face_line(l) {
                Ok(Some(f)) => (n, d.push(f), None),
                Ok(None) => (n, d, None),
                Err(_) => (n, d, Some(ls.len() - 1)),
            }
        } else {
            match unsigned_of(l) {
                Some(k) => (k, d, None),
                None => (n, d, None),
            }
        }
    }
}

/// The outcome of reading faces from `t` after `skip` header lines.
pub open spec fn faces_outcome(t: Seq<char>, skip: int) -> Result<Seq<Seq<usize>>, FoamError> {
    let (n, d, bad) = scan_faces(body(t, skip));
    match bad {
        Some(i) => Err(FoamError::FaceVertexMismatch { line: (skip + i) as usize }),
        None => list_outcome((n, d)),
    }
}

pub open spec fn face_views(v: Seq<Vec<usize>>) -> Seq<Seq<usize>> {
    v.map_values(|f: Vec<usize>| f@)
}

proof fn lemma_faces_bad_stays(ls: Seq<Seq<char>>, m: int)
    requires
        0 <= m <= ls.len(),
        scan_faces(ls.take(m)).2 is Some,
    ensures
        scan_faces(ls).2 == scan_faces(ls.take(m)).2,
    decreases ls.len() - m,
{
    if m < ls.len() {
        assert(ls.take(m + 1).drop_last() =~= ls.take(m));
        lemma_faces_bad_stays(ls, m + 1);
    } else {
        assert(ls.take(m) =~= ls);
    }
}

proof fn lemma_faces_bounds(ls: Seq<Seq<char>>)
    ensures
        scan_faces(ls).0 == 0 ==> scan_faces(ls).1.len() == 0,
        scan_faces(ls).1.len() <= ls.len(),
        scan_faces(ls).2 is Some ==> 0 <= scan_faces(ls).2->0 < ls.len(),
    decreases ls.len(),
{
    if ls.len() > 0 {
        lemma_faces_bounds(ls.drop_last());
    }
}

/// Reads a faces file: after `skip` header lines and the count line, each
/// line `k(i1 ... ik)` gives one face, its point indices in file order.
pub fn parse_faces(text: &str, skip: usize) -> (r: Result<Vec<Vec<usize>>, FoamError>)
    ensures
        match r {
            Ok(v) => faces_outcome(text@, skip as int) == Ok::<Seq<Seq<usize>>, FoamError>(
                face_views(v@),
            ),
            Err(e) => faces_outcome(text@, skip as int) == Err::<Seq<Seq<usize>>, FoamError>(e),
        },
{
    let (ls, start) = body_lines(text, skip);
    let ghost all = views(ls@);
    let mut n: usize = 0;
    let mut data: Vec<Vec<usize>> = Vec::new();
    let mut j: usize = start;
    assert(all.subrange(start as int, start as int) =~= seq![]);
    while j < ls.len()
        invariant
            start <= j <= ls@.len(),
            all == views(ls@),
            start < ls@.len() ==> start == skip,
            body(text@, skip as int) == all.skip(start as int),
            (n, face_views(data@), None::<int>) == scan_faces(
                all.subrange(start as int, j as int),
            ),
        decreases ls@.len() - j,
    {
        let ghost pre = all.subrange(start as int, j as int);
        let ghost cur = all.subrange(start as int, j + 1);
        assert(cur.drop_last() =~= pre);
        let line = ls[j].as_slice();
        assert(cur.last() == line@);
        if n > 0 {
            match numbers_in(line) {
                Some(vals) => {
                    if vals.len() > 0 {
                        if vals.len() - 1 != vals[0] {
                            proof {
                                assert(scan_faces(cur).2 == Some(j - start));
                                assert(all.skip(start as int).take(j - start + 1) =~= cur);
                                lemma_faces_bad_stays(all.skip(start as int), j - start + 1);
                            }
                            return Err(FoamError::FaceVertexMismatch { line: j });
                        }
                        let mut rest: Vec<usize> = Vec::new();
                        let mut k: usize = 1;
                        while k < vals.len()
                            invariant
                                1 <= k <= vals@.len(),
                                rest@ == vals@.subrange(1, k as int),
                            decreases vals@.len() - k,
                        {
                            rest.push(vals[k]);
                            k += 1;
                            assert(rest@ =~= vals@.subrange(1, k as int));
                        }
                        data.push(rest);
                        assert(face_views(data@) =~= scan_faces(cur).1);
                    }
                },
                None => {
                    proof {
                        assert(all.skip(start as int).take(j - start + 1) =~= cur);
                        lemma_faces_bad_stays(all.skip(start as int), j - start + 1);
                    }
                    return Err(FoamError::FaceVertexMismatch { line: j });
                },
            }
        } else if let Some(k) = parse_unsigned(line) {
            n = k;
        }
        j += 1;
    }
    assert(all.subrange(start as int, ls@.len() as int) =~= all.skip(start as int));
    proof {
        lemma_faces_bounds(all.skip(start as int));
    }
    if data.len() != n {
        return Err(FoamError::CountMismatch { expected: n, found: data.len() });
    }
    Ok(data)
}

/// `f`, handed a string whose characters are `l`, may return `o`.
pub open spec fn decodes<T, F: Fn(&str) -> Option<T>>(f: F, l: Seq<char>, o: Option<T>) -> bool {
    exists|s: &str| s@ == l && #[trigger] f.ensures((s,), o)
}

/// A line of the shape `( ... )`.
pub open spec fn is_point_line(l: Seq<char>) -> bool {
    l.len() > 0 && l[0] == '(' && l.last() == ')'
}

/// Scans point lines: the declared count, and the positions of the
/// bracketed lines after the count line.
pub open spec fn scan_points(ls: Seq<Seq<char>>) -> (usize, Seq<int>)
    decreases ls.len(),
{
    if ls.len() == 0 {
        (0usize, seq![])
    } else {
        let (n, idx) = scan_points(ls.drop_last());
        let l = ls.last();
        if n > 0 {
            if is_point_line(l) {
                (n, idx.push(ls.len() - 1))
            } else {
                (n, idx)
            }
        } else {
            match unsigned_of(l) {
                Some(k) => (k, idx),
                None => (n, idx),
            }
        }
    }
}

proof fn lemma_points_prefix(ls: Seq<Seq<char>>, m: int)
    requires
        0 <= m <= ls.len(),
    ensures
        scan_points(ls.take(m)).1.len() <= scan_points(ls).1.len(),
        forall|i: int|
            0 <= i < scan_points(ls.take(m)).1.len() ==> #[trigger] scan_points(ls).1[i]
                == scan_points(ls.take(m)).1[i],
    decreases ls.len() - m,
{
    if m < ls.len() {
        assert(ls.take(m + 1).drop_last() =~= ls.take(m));
        lemma_points_prefix(ls, m + 1);
    } else {
        assert(ls.take(m) =~= ls);
    }
}

proof fn lemma_points_bounds(ls: Seq<Seq<char>>)
    ensures
        scan_points(ls).0 == 0 ==> scan_points(ls).1.len() == 0,
        scan_points(ls).1.len() <= ls.len(),
        forall|i: int|
            0 <= i < scan_points(ls).1.len() ==> 0 <= #[trigger] scan_points(ls).1[i] < ls.len(),
    decreases ls.len(),
{
    if ls.len() > 0 {
        lemma_points_bounds(ls.drop_last());
    }
}

/// `f` may accept the line `l`.
pub open spec fn accepted<T, F: Fn(&str) -> Option<T>>(f: F, l: Seq<char>) -> bool {
    exists|v: T| decodes(f, l, Some(v))
}

/// `r` is what reading the points of the body `b`, whose first line is
/// file line `skip`, may give with `f`: a value for every bracketed line;
/// else the first bracketed line that `f` refuses; else, all accepted, a
/// count mismatch.
pub open spec fn points_result<T, F: Fn(&str) -> Option<T>>(
    f: F,
    b: Seq<Seq<char>>,
    skip: int,
    r: Result<Vec<T>, FoamError>,
) -> bool {
    let (n, idx) = scan_points(b);
    match r {
        Ok(v) => v@.len() == n && idx.len() == n && forall|i: int|
            0 <= i < v@.len() ==> decodes(f, b[idx[i]], Some(#[trigger] v@[i])),
        Err(FoamError::CountMismatch { expected, found }) => expected == n && found == idx.len()
            && found != n && forall|k: int|
            0 <= k < idx.len() ==> #[trigger] accepted(f, b[idx[k]]),
        Err(FoamError::MalformedPoint { line }) => exists|k: int|
            0 <= k < idx.len() && line == skip + idx[k] && decodes(f, b[#[trigger] idx[k]], None)
                && forall|j: int| 0 <= j < k ==> #[trigger] accepted(f, b[idx[j]]),
        Err(_) => false,
    }
}

/// Reads a points file: after `skip` header lines and the count line, each
/// line `(x y z)` is handed to `decode`; other lines are passed over. A
/// bracketed line that `decode` refuses fails the read.
pub fn parse_points<T, F: Fn(&str) -> Option<T>>(text: &str, skip: usize, decode: F) -> (r: Result<
    Vec<T>,
    FoamError,
>)
    requires
        forall|s: &str| decode.requires((s,)),
    ensures
        points_result(decode, body(text@, skip as int), skip as int, r),
        (forall|s: &str, o: Option<T>| #[trigger] decode.ensures((s,), o) ==> o is Some) ==> (
        r is Ok <==> scan_points(body(text@, skip as int)).1.len() == scan_points(
            body(text@, skip as int),
        ).0),
{
    let (ls, start) = body_lines(text, skip);
    let ghost all = views(ls@);
    let mut n: usize = 0;
    let mut data: Vec<T> = Vec::new();
    let mut j: usize = start;
    assert(all.subrange(start as int, start as int) =~= seq![]);
    while j < ls.len()
        invariant
            forall|s: &str| decode.requires((s,)),
            start <= j <= ls@.len(),
            all == views(ls@),
            start < ls@.len() ==> start == skip,
            body(text@, skip as int) == all.skip(start as int),
            n == scan_points(all.subrange(start as int, j as int)).0,
            data@.len() == scan_points(all.subrange(start as int, j as int)).1.len(),
            forall|i: int|
                0 <= i < data@.len() ==> {
                    let p = #[trigger] scan_points(all.subrange(start as int, j as int)).1[i];
                    0 <= p < j - start && decodes(decode, all[start + p], Some(data@[i]))
                },
        decreases ls@.len() - j,
    {
        let ghost pre = all.subrange(start as int, j as int);
        let ghost cur = all.subrange(start as int, j + 1);
        assert(cur.drop_last() =~= pre);
        let line = ls[j].as_slice();
        assert(cur.last() == line@);
        if n > 0 {
            if line.len() > 0 && line[0] == '(' && line[line.len() - 1] == ')' {
                let st = string_of(line);
                let o = decode(st.as_str());
                assert(decodes(decode, line@, o));
                match o {
                    Some(v) => {
                        data.push(v);
                    },
                    None => {
                        proof {
                            let b = all.skip(start as int);
                            let k = scan_points(pre).1.len() as int;
                            assert(scan_points(cur).1[k] == j - start);
                            assert(b.take(j - start + 1) =~= cur);
                            lemma_points_prefix(b, j - start + 1);
                            lemma_points_bounds(b);
                            assert(scan_points(b).1[k] == j - start);
                            assert(b[j - start] == line@);
                            assert forall|i: int| 0 <= i < k implies #[trigger] accepted(
                                decode,
                                b[scan_points(b).1[i]],
                            ) by {
                                let p = scan_points(pre).1[i];
                                assert(scan_points(b).1[i] == p);
                                assert(decodes(decode, b[p], Some(data@[i])));
                            }
                        }
                        return Err(FoamError::MalformedPoint { line: j });
                    },
                }
            }
        } else if let Some(k) = parse_unsigned(line) {
            n = k;
        }
        j += 1;
    }
    assert(all.subrange(start as int, ls@.len() as int) =~= all.skip(start as int));
    proof {
        let b = all.skip(start as int);
        lemma_points_bounds(b);
        assert forall|i: int| 0 <= i < data@.len() implies #[trigger] accepted(
            decode,
            b[scan_points(b).1[i]],
        ) by {
            assert(decodes(decode, b[scan_points(b).1[i]], Some(data@[i])));
        }
    }
    if data.len() != n {
        return Err(FoamError::CountMismatch { expected: n, found: data.len() });
    }
    Ok(data)
}

/// A list read gives exactly the declared number of values, or else a
/// count mismatch that names the declared count and the different number
/// of values found.
pub proof fn lemma_list_count<T>(ls: Seq<Seq<char>>, dec: spec_fn(Seq<char>) -> Option<T>)
    ensures
        ({
            let (n, d) = scan_values(ls, dec);
            match list_outcome(scan_values(ls, dec)) {
                Ok(v) => v.len() == n,
                Err(e) => e == FoamError::CountMismatch { expected: n, found: d.len() as usize }
                    && d.len() != n,
            }
        }),
{
}

/// A faces read gives exactly the declared number of faces, or else fails:
/// on a malformed face line, or with a count mismatch that names the
/// declared count and the different number of faces found.
pub proof fn lemma_faces_count(t: Seq<char>, skip: int)
    ensures
        ({
            let (n, d, bad) = scan_faces(body(t, skip));
            match faces_outcome(t, skip) {
                Ok(v) => v.len() == n,
                Err(FoamError::CountMismatch { expected, found }) => bad is None && expected == n
                    && found == d.len() as usize && d.len() != n,
                Err(e) => bad is Some && e is FaceVertexMismatch,
            }
        }),
{
    lemma_faces_bounds(body(t, skip));
}

} // verus!
