//! The boundary file: named patches, each a contiguous range of faces.
use vstd::prelude::*;
use crate::error::FoamError;
use crate::lists::{body, body_lines};
use crate::number::{parse_signed, parse_unsigned, signed_of, unsigned_of};
use crate::text::{
    blank, chars_of, contains, is_blank, lines_of, occurs, runs, runs_in, string_of, trim, trimmed, views,
};

verus! {

/// One patch of a boundary file. Its faces are
/// `start_face .. start_face + num_faces`; `boundary_id` is the negative
/// value that marks those faces in the neighbour list.
#[derive(Debug, Clone)]
pub struct Boundary {
    pub boundary_type: String,
    pub num_faces: usize,
    pub start_face: usize,
    pub boundary_id: i64,
}

/// A patch as the contracts see it.
pub struct PatchSpec {
    pub name: Seq<char>,
    pub boundary_type: Seq<char>,
    pub num_faces: usize,
    pub start_face: usize,
    pub boundary_id: i64,
}

pub open spec fn patch_spec(e: (String, Boundary)) -> PatchSpec {
    PatchSpec {
        name: e.0@,
        boundary_type: e.1.boundary_type@,
        num_faces: e.1.num_faces,
        start_face: e.1.start_face,
        boundary_id: e.1.boundary_id,
    }
}

/// `b` holds the fields of `p`.
pub open spec fn same_patch(b: Boundary, p: PatchSpec) -> bool {
    b.boundary_type@ == p.boundary_type && b.num_faces == p.num_faces && b.start_face
        == p.start_face && b.boundary_id == p.boundary_id
}

/// The position of the patch called `name`, or -1.
pub open spec fn find_name(ps: Seq<PatchSpec>, name: Seq<char>) -> int
    decreases ps.len(),
{
    if ps.len() == 0 {
        -1
    } else if ps.last().name == name {
        ps.len() - 1
    } else {
        find_name(ps.drop_last(), name)
    }
}

/// Adds `p`, replacing the patch of the same name where there is one.
pub open spec fn insert_patch(ps: Seq<PatchSpec>, p: PatchSpec) -> Seq<PatchSpec> {
    let k = find_name(ps, p.name);
    if k >= 0 {
        ps.update(k, p)
    } else {
        ps.push(p)
    }
}

/// The patches of a boundary file, keyed by name, in the order in which
/// each name first appears.
pub struct BoundaryMap {
    entries: Vec<(String, Boundary)>,
}

impl View for BoundaryMap {
    type V = Seq<PatchSpec>;

    closed spec fn view(&self) -> Seq<PatchSpec> {
        self.entries@.map_values(|e: (String, Boundary)| patch_spec(e))
    }
}

pub proof fn lemma_find_name_range(ps: Seq<PatchSpec>, name: Seq<char>)
    ensures
        -1 <= find_name(ps, name) < ps.len(),
        find_name(ps, name) >= 0 ==> ps[find_name(ps, name)].name == name,
        find_name(ps, name) < 0 ==> forall|i: int| 0 <= i < ps.len() ==> ps[i].name != name,
    decreases ps.len(),
{
    if ps.len() > 0 {
        lemma_find_name_range(ps.drop_last(), name);
        if find_name(ps, name) < 0 {
            assert forall|i: int| 0 <= i < ps.len() implies ps[i].name != name by {
                if i < ps.len() - 1 {
                    assert(ps.drop_last()[i] == ps[i]);
                }
            }
        }
    }
}

/// The position of the entry called `name`.
fn find_entry(entries: &Vec<(String, Boundary)>, name: &String) -> (r: Option<usize>)
    ensures
        match r {
            Some(k) => find_name(entries@.map_values(|e: (String, Boundary)| patch_spec(e)), name@)
                == k,
            None => find_name(entries@.map_values(|e: (String, Boundary)| patch_spec(e)), name@)
                == -1,
        },
        r is Some ==> r->0 < entries@.len(),
{
    let ghost ps = entries@.map_values(|e: (String, Boundary)| patch_spec(e));
    proof {
        lemma_find_name_range(ps, name@);
    }
    let mut k: usize = entries.len();
    assert(ps.take(k as int) =~= ps);
    while k > 0
        invariant
            k <= entries@.len(),
            ps == entries@.map_values(|e: (String, Boundary)| patch_spec(e)),
            find_name(ps, name@) == find_name(ps.take(k as int), name@),
        decreases k,
    {
        assert(ps.take(k as int).drop_last() =~= ps.take(k - 1));
        if entries[k - 1].0 == *name {
            return Some(k - 1);
        }
        k -= 1;
    }
    None
}

impl BoundaryMap {
    /// Names are unique.
    pub open spec fn wf(&self) -> bool {
        forall|i: int, j: int|
            0 <= i < j < self@.len() ==> (#[trigger] self@[i]).name != (#[trigger] self@[j]).name
    }

    /// An empty map.
    pub fn new() -> (r: BoundaryMap)
        ensures
            r@ == Seq::<PatchSpec>::empty(),
    {
        let r = BoundaryMap { entries: Vec::new() };
        assert(r@ =~= Seq::<PatchSpec>::empty());
        r
    }

    /// Adds a patch, replacing the one of the same name.
    pub fn insert(&mut self, name: String, b: Boundary)
        ensures
            final(self)@ == insert_patch(old(self)@, patch_spec((name, b))),
    {
        match find_entry(&self.entries, &name) {
            Some(k) => {
                self.entries.set(k, (name, b));
            },
            None => {
                self.entries.push((name, b));
            },
        }
        assert(self@ =~= insert_patch(old(self)@, patch_spec((name, b))));
    }

    /// The number of patches.
    pub fn len(&self) -> (r: usize)
        ensures
            r == self@.len(),
    {
        self.entries.len()
    }

    /// The name of the `i`-th patch.
    pub fn name_at(&self, i: usize) -> (r: &String)
        requires
            i < self@.len(),
        ensures
            r@ == self@[i as int].name,
    {
        &self.entries[i].0
    }

    /// The `i`-th patch.
    pub fn patch_at(&self, i: usize) -> (r: &Boundary)
        requires
            i < self@.len(),
        ensures
            same_patch(*r, self@[i as int]),
    {
        &self.entries[i].1
    }

    /// The patch called `name`.
    pub fn get(&self, name: &str) -> (r: Option<&Boundary>)
        ensures
            match r {
                Some(b) => find_name(self@, name@) >= 0 && same_patch(*b, self@[find_name(self@, name@)]),
                None => find_name(self@, name@) == -1,
            },
    {
        let key = string_of(chars_of(name).as_slice());
        match find_entry(&self.entries, &key) {
            Some(k) => Some(&self.entries[k].1),
            None => None,
        }
    }
}

/// Where the boundary reader stands between two lines.
pub struct ReadState {
    pub in_block: bool,
    pub in_patch: bool,
    pub name: Seq<char>,
    pub boundary_type: Seq<char>,
    pub num_faces: usize,
    pub start_face: usize,
    pub closed: int,
    pub table: Seq<PatchSpec>,
}

pub open spec fn initial_state() -> ReadState {
    ReadState {
        in_block: false,
        in_patch: false,
        name: seq![],
        boundary_type: seq![],
        num_faces: 0,
        start_face: 0,
        closed: 0,
        table: seq![],
    }
}

/// The next position and state, or the end of the read.
pub enum ReadStep {
    Next(int, ReadState),
    Done(Result<ReadState, FoamError>),
}

pub open spec fn opens_with(l: Seq<char>, c: char) -> bool {
    l.len() > 0 && l[0] == c
}

/// The value of a `key value;` line: its second word between white space
/// without the `;`.
pub open spec fn key_value(l: Seq<char>) -> Option<Seq<char>> {
    let w = runs(l, false);
    if w.len() >= 2 && w[1].len() > 0 && w[1].last() == ';' {
        Some(w[1].drop_last())
    } else {
        None
    }
}

/// A numeric `key value;` line at file line `line`.
pub open spec fn numeric_value(l: Seq<char>, line: int) -> Result<usize, FoamError> {
    match key_value(l) {
        None => Err(FoamError::MalformedKeyValue { line: line as usize }),
        Some(v) => match unsigned_of(v) {
            Some(x) => Ok(x),
            None => Err(FoamError::MalformedValue { line: line as usize }),
        },
    }
}

/// One step of the reader at line `k` of the body `b`, whose first line is
/// file line `skip`.
pub open spec fn read_step(b: Seq<Seq<char>>, skip: int, k: int, st: ReadState) -> ReadStep {
    if k < 0 || k >= b.len() {
        ReadStep::Done(Err(FoamError::UnexpectedEnd))
    } else {
        let l = b[k];
        if !st.in_block && signed_of(trim(l)) is Some {
            let st2 = ReadState { in_block: true, ..st };
            if k + 1 >= b.len() {
                ReadStep::Done(Err(FoamError::UnexpectedEnd))
            } else if opens_with(b[k + 1], '(') {
                ReadStep::Next(k + 2, st2)
            } else if !is_blank(b[k + 1]) {
                ReadStep::Done(Err(FoamError::MissingOpenParen))
            } else if k + 2 >= b.len() {
                ReadStep::Done(Err(FoamError::UnexpectedEnd))
            } else if opens_with(b[k + 2], '(') {
                ReadStep::Next(k + 3, st2)
            } else {
                ReadStep::Done(Err(FoamError::MissingOpenParen))
            }
        } else if !st.in_block {
            ReadStep::Next(k + 1, st)
        } else if opens_with(l, ')') {
            ReadStep::Done(Ok(st))
        } else if st.in_patch {
            if trim(l) == seq!['}'] {
                let p = PatchSpec {
                    name: st.name,
                    boundary_type: st.boundary_type,
                    num_faces: st.num_faces,
                    start_face: st.start_face,
                    boundary_id: (-10 - st.closed) as i64,
                };
                ReadStep::Next(
                    k + 1,
                    ReadState {
                        in_patch: false,
                        name: seq![],
                        closed: st.closed + 1,
                        table: insert_patch(st.table, p),
                        ..st
                    },
                )
            } else if occurs(l, "nFaces"@) {
                match numeric_value(l, skip + k) {
                    Ok(x) => ReadStep::Next(k + 1, ReadState { num_faces: x, ..st }),
                    Err(e) => ReadStep::Done(Err(e)),
                }
            } else if occurs(l, "startFace"@) {
                match numeric_value(l, skip + k) {
                    Ok(x) => ReadStep::Next(k + 1, ReadState { start_face: x, ..st }),
                    Err(e) => ReadStep::Done(Err(e)),
                }
            } else if occurs(l, "type"@) {
                match key_value(l) {
                    Some(v) => ReadStep::Next(k + 1, ReadState { boundary_type: v, ..st }),
                    None => ReadStep::Done(
                        Err(FoamError::MalformedKeyValue { line: (skip + k) as usize }),
                    ),
                }
            } else {
                ReadStep::Next(k + 1, st)
            }
        } else if is_blank(l) {
            ReadStep::Next(k + 1, st)
        } else {
            let st2 = ReadState { in_patch: true, name: trim(l), ..st };
            if k + 1 >= b.len() {
                ReadStep::Done(Err(FoamError::UnexpectedEnd))
            } else if trim(b[k + 1]) == seq!['{'] {
                ReadStep::Next(k + 2, st2)
            } else if !is_blank(b[k + 1]) {
                ReadStep::Done(Err(FoamError::MissingOpenBrace))
            } else if k + 2 >= b.len() {
                ReadStep::Done(Err(FoamError::UnexpectedEnd))
            } else if trim(b[k + 2]) == seq!['{'] {
                ReadStep::Next(k + 3, st2)
            } else {
                ReadStep::Done(Err(FoamError::MissingOpenBrace))
            }
        }
    }
}

/// The reader run from line `k` in state `st` to its end.
pub open spec fn read_from(b: Seq<Seq<char>>, skip: int, k: int, st: ReadState) -> Result<
    ReadState,
    FoamError,
>
    decreases b.len() + 3 - k,
{
    match read_step(b, skip, k, st) {
        ReadStep::Done(r) => r,
        ReadStep::Next(k2, st2) => if 0 <= k < k2 <= b.len() + 2 {
            read_from(b, skip, k2, st2)
        } else {
            Err(FoamError::UnexpectedEnd)
        },
    }
}

/// The reader's final state on a boundary file `t` after `skip` header lines.
pub open spec fn boundary_read(t: Seq<char>, skip: int) -> Result<ReadState, FoamError> {
    read_from(body(t, skip), skip, 0, initial_state())
}

/// The patches read from a boundary file `t` after `skip` header lines.
pub open spec fn boundary_outcome(t: Seq<char>, skip: int) -> Result<Seq<PatchSpec>, FoamError> {
    match boundary_read(t, skip) {
        Ok(st) => Ok(st.table),
        Err(e) => Err(e),
    }
}

/// The value of a `key value;` line.
fn value_of(l: &[char]) -> (r: Option<Vec<char>>)
    ensures
        match r {
            Some(v) => key_value(l@) == Some(v@),
            None => key_value(l@) is None,
        },
{
    let words = runs_in(l, false);
    proof {
        assert(views(words@).len() == words@.len());
    }
    if words.len() >= 2 && words[1].len() > 0 && words[1][words[1].len() - 1] == ';' {
        assert(views(words@)[1] == words@[1]@);
        let w = &words[1];
        let mut v: Vec<char> = Vec::new();
        let mut i: usize = 0;
        while i < w.len() - 1
            invariant
                i < w@.len(),
                v@ == w@.take(i as int),
            decreases w@.len() - i,
        {
            v.push(w[i]);
            i += 1;
            assert(v@ =~= w@.take(i as int));
        }
        assert(v@ =~= w@.drop_last());
        Some(v)
    } else {
        proof {
            if words@.len() >= 2 {
                assert(views(words@)[1] == words@[1]@);
            }
        }
        None
    }
}

/// The numeric value of a `key value;` line at file line `line`.
fn numeric(l: &[char], line: usize) -> (r: Result<usize, FoamError>)
    ensures
        r == numeric_value(l@, line as int),
{
    match value_of(l) {
        None => Err(FoamError::MalformedKeyValue { line }),
        Some(v) => match parse_unsigned(v.as_slice()) {
            Some(x) => Ok(x),
            None => Err(FoamError::MalformedValue { line }),
        },
    }
}

/// `v` is the single character `c`.
fn is_single(v: &Vec<char>, c: char) -> (r: bool)
    ensures
        r == (v@ == seq![c]),
{
    if v.len() == 1 && v[0] == c {
        assert(v@ =~= seq![c]);
        true
    } else {
        false
    }
}

/// Reads a boundary file: after `skip` header lines, a patch count, a `(`
/// line, then for each patch its name, a `{` line, its `type`, `nFaces`
/// and `startFace` lines, and a `}` line, up to a closing `)` line. The
/// `i`-th patch closed gets the id `-10 - i`.
pub fn parse_boundary(text: &str, skip: usize) -> (r: Result<BoundaryMap, FoamError>)
    requires
        text@.len() < 0x4000_0000_0000_0000,
    ensures
        match r {
            Ok(m) => boundary_outcome(text@, skip as int) == Ok::<Seq<PatchSpec>, FoamError>(m@)
                && m.wf(),
            Err(e) => boundary_outcome(text@, skip as int) == Err::<Seq<PatchSpec>, FoamError>(e),
        },
{
    proof {
        lemma_boundary_ids(text@, skip as int);
    }
    let (ls, start) = body_lines(text, skip);
    proof {
        crate::text::lemma_lines_count(text@);
        assert(views(ls@).len() == ls@.len());
    }
    let ghost b = views(ls@).skip(start as int);
    let n = ls.len();
    let blen = n - start;
    let kw_faces = chars_of("nFaces");
    let kw_start = chars_of("startFace");
    let kw_type = chars_of("type");
    let mut in_block = false;
    let mut in_patch = false;
    let mut name: Vec<char> = Vec::new();
    let mut btype: Vec<char> = Vec::new();
    let mut num_faces: usize = 0;
    let mut start_face: usize = 0;
    let mut closed: usize = 0;
    let mut table = BoundaryMap::new();
    let mut k: usize = 0;
    assert(name@ =~= seq![] && btype@ =~= seq![] && table@ =~= seq![]);
    loop
        invariant
            b == views(ls@).skip(start as int),
            blen == b.len(),
            start + blen == ls@.len(),
            n == ls@.len(),
            blen <= 0x4000_0000_0000_0000,
            blen > 0 ==> start == skip,
            body(text@, skip as int) == b,
            boundary_read(text@, skip as int) is Ok ==> ids_ok(
                boundary_read(text@, skip as int)->Ok_0,
            ),
            kw_faces@ == "nFaces"@,
            kw_start@ == "startFace"@,
            kw_type@ == "type"@,
            closed <= k <= blen + 2,
            read_from(
                b,
                skip as int,
                k as int,
                (ReadState {
                    in_block,
                    in_patch,
                    name: name@,
                    boundary_type: btype@,
                    num_faces,
                    start_face,
                    closed: closed as int,
                    table: table@,
                }),
            ) == boundary_read(text@, skip as int),
        decreases blen + 3 - k,
    {
        if k >= blen {
            return Err(FoamError::UnexpectedEnd);
        }
        let line = ls[start + k].as_slice();
        assert(b[k as int] == line@);
        let tl = trimmed(line);
        if !in_block {
            if let Some(_) = parse_signed(tl.as_slice()) {
                in_block = true;
                if k + 1 >= blen {
                    return Err(FoamError::UnexpectedEnd);
                }
                let l1 = ls[start + k + 1].as_slice();
                assert(b[k + 1] == l1@);
                if l1.len() > 0 && l1[0] == '(' {
                    k = k + 2;
                    continue;
                }
                if !blank(l1) {
                    return Err(FoamError::MissingOpenParen);
                }
                if k + 2 >= blen {
                    return Err(FoamError::UnexpectedEnd);
                }
                let l2 = ls[start + k + 2].as_slice();
                assert(b[k + 2] == l2@);
                if l2.len() > 0 && l2[0] == '(' {
                    k = k + 3;
                    continue;
                }
                return Err(FoamError::MissingOpenParen);
            }
            k = k + 1;
            continue;
        }
        if line.len() > 0 && line[0] == ')' {
            return Ok(table);
        }
        if in_patch {
            if is_single(&tl, '}') {
                let id: i64 = -10 - closed as i64;
                let ghost p = PatchSpec {
                    name: name@,
                    boundary_type: btype@,
                    num_faces,
                    start_face,
                    boundary_id: id,
                };
                let b_new = Boundary {
                    boundary_type: string_of(btype.as_slice()),
                    num_faces,
                    start_face,
                    boundary_id: id,
                };
                let n_new = string_of(name.as_slice());
                assert(patch_spec((n_new, b_new)) == p);
                table.insert(n_new, b_new);
                in_patch = false;
                name = Vec::new();
                assert(name@ =~= seq![]);
                closed = closed + 1;
            } else if contains(line, kw_faces.as_slice()) {
                match numeric(line, start + k) {
                    Ok(x) => {
                        num_faces = x;
                    },
                    Err(e) => {
                        return Err(e);
                    },
                }
            } else if contains(line, kw_start.as_slice()) {
                match numeric(line, start + k) {
                    Ok(x) => {
                        start_face = x;
                    },
                    Err(e) => {
                        return Err(e);
                    },
                }
            } else if contains(line, kw_type.as_slice()) {
                match value_of(line) {
                    Some(v) => {
                        btype = v;
                    },
                    None => {
                        return Err(FoamError::MalformedKeyValue { line: start + k });
                    },
                }
            }
            k = k + 1;
            continue;
        }
        if tl.len() == 0 {
            k = k + 1;
            continue;
        }
        name = tl;
        in_patch = true;
        if k + 1 >= blen {
            return Err(FoamError::UnexpectedEnd);
        }
        let l1 = ls[start + k + 1].as_slice();
        assert(b[k + 1] == l1@);
        if is_single(&trimmed(l1), '{') {
            k = k + 2;
            continue;
        }
        if !blank(l1) {
            return Err(FoamError::MissingOpenBrace);
        }
        if k + 2 >= blen {
            return Err(FoamError::UnexpectedEnd);
        }
        let l2 = ls[start + k + 2].as_slice();
        assert(b[k + 2] == l2@);
        if is_single(&trimmed(l2), '{') {
            k = k + 3;
            continue;
        }
        return Err(FoamError::MissingOpenBrace);
    }
}

/// The patches read so far have distinct names and distinct ids, each
/// id at most -10 and above `-10 - closed`; while no name has repeated
/// (one entry per patch closed), the `i`-th patch has the id `-10 - i`.
pub open spec fn ids_ok(st: ReadState) -> bool {
    &&& 0 <= st.closed
    &&& st.table.len() <= st.closed
    &&& forall|i: int|
        0 <= i < st.table.len() ==> -10 - st.closed < #[trigger] st.table[i].boundary_id <= -10
    &&& forall|i: int, j: int|
        0 <= i < j < st.table.len() ==> (#[trigger] st.table[i]).boundary_id != (
        #[trigger] st.table[j]).boundary_id
    &&& forall|i: int, j: int|
        0 <= i < j < st.table.len() ==> (#[trigger] st.table[i]).name != (
        #[trigger] st.table[j]).name
    &&& st.table.len() == st.closed ==> forall|i: int|
        0 <= i < st.table.len() ==> #[trigger] st.table[i].boundary_id == -10 - i
}

proof fn lemma_step_ids(b: Seq<Seq<char>>, skip: int, k: int, st: ReadState)
    requires
        ids_ok(st),
        0 <= k,
        st.closed <= k,
        b.len() <= 0x4000_0000_0000_0000,
    ensures
        match read_step(b, skip, k, st) {
            ReadStep::Next(k2, st2) => ids_ok(st2) && st2.closed <= k2,
            ReadStep::Done(Ok(st2)) => ids_ok(st2),
            ReadStep::Done(Err(_)) => true,
        },
{
    if 0 <= k < b.len() && st.in_block && !opens_with(b[k], ')') && st.in_patch && trim(b[k])
        == seq!['}'] {
        let p = PatchSpec {
            name: st.name,
            boundary_type: st.boundary_type,
            num_faces: st.num_faces,
            start_face: st.start_face,
            boundary_id: (-10 - st.closed) as i64,
        };
        assert(p.boundary_id == -10 - st.closed);
        let tb = st.table;
        let nt = insert_patch(tb, p);
        lemma_find_name_range(tb, p.name);
        let f = find_name(tb, p.name);
        if f >= 0 {
            assert forall|i: int, j: int| 0 <= i < j < nt.len() implies (
            #[trigger] nt[i]).name != (#[trigger] nt[j]).name by {
                assert(tb[i].name != tb[j].name);
            }
            assert forall|i: int, j: int| 0 <= i < j < nt.len() implies (
            #[trigger] nt[i]).boundary_id != (#[trigger] nt[j]).boundary_id by {
                if i != f && j != f {
                    assert(tb[i].boundary_id != tb[j].boundary_id);
                } else if i == f {
                    assert(-10 - st.closed < tb[j].boundary_id);
                } else {
                    assert(-10 - st.closed < tb[i].boundary_id);
                }
            }
            assert forall|i: int| 0 <= i < nt.len() implies -10 - (st.closed + 1)
                < #[trigger] nt[i].boundary_id <= -10 by {
                if i != f {
                    assert(-10 - st.closed < tb[i].boundary_id);
                }
            }
        } else {
            assert forall|i: int, j: int| 0 <= i < j < nt.len() implies (
            #[trigger] nt[i]).name != (#[trigger] nt[j]).name by {
                if j < tb.len() {
                    assert(tb[i].name != tb[j].name);
                } else {
                    assert(tb[i].name != p.name);
                }
            }
            assert forall|i: int, j: int| 0 <= i < j < nt.len() implies (
            #[trigger] nt[i]).boundary_id != (#[trigger] nt[j]).boundary_id by {
                if j < tb.len() {
                    assert(tb[i].boundary_id != tb[j].boundary_id);
                } else {
                    assert(-10 - st.closed < tb[i].boundary_id);
                }
            }
            assert forall|i: int| 0 <= i < nt.len() implies -10 - (st.closed + 1)
                < #[trigger] nt[i].boundary_id <= -10 by {
                if i < tb.len() {
                    assert(-10 - st.closed < tb[i].boundary_id);
                }
            }
            if nt.len() == st.closed + 1 {
                assert forall|i: int| 0 <= i < nt.len() implies #[trigger] nt[i].boundary_id
                    == -10 - i by {
                    if i < tb.len() {
                        assert(tb[i].boundary_id == -10 - i);
                    }
                }
            }
        }
    }
}

proof fn lemma_read_ids(b: Seq<Seq<char>>, skip: int, k: int, st: ReadState)
    requires
        ids_ok(st),
        0 <= k,
        st.closed <= k,
        b.len() <= 0x4000_0000_0000_0000,
    ensures
        read_from(b, skip, k, st) is Ok ==> ids_ok(read_from(b, skip, k, st)->Ok_0),
    decreases b.len() + 3 - k,
{
    lemma_step_ids(b, skip, k, st);
    match read_step(b, skip, k, st) {
        ReadStep::Next(k2, st2) => {
            if 0 <= k < k2 <= b.len() + 2 {
                lemma_read_ids(b, skip, k2, st2);
            }
        },
        ReadStep::Done(_) => {},
    }
}

/// The patches of a boundary file have distinct names and distinct ids,
/// each at most -10. Where no patch name repeats, so that there is one
/// entry for each patch closed, the ids are `-10, -11, ...` in file order.
pub proof fn lemma_boundary_ids(t: Seq<char>, skip: int)
    requires
        0 <= skip,
        t.len() < 0x4000_0000_0000_0000,
    ensures
        boundary_read(t, skip) is Ok ==> ids_ok(boundary_read(t, skip)->Ok_0),
{
    crate::text::lemma_lines_count(t);
    let b = body(t, skip);
    assert(b.len() <= lines_of(t).len());
    lemma_read_ids(b, skip, 0, initial_state());
}

} // verus!
