//! The `internalField` declaration of a field file, uniform or nonuniform,
//! and the bracketed values it holds.
use vstd::prelude::*;
use crate::error::FoamError;
use crate::lists::decodes;
use crate::number::{parse_unsigned, unsigned_of};
use crate::text::{
    chars_of, contains, has_prefix, lines_of, occurs, runs, runs_in, split_lines, string_of, views,
};

verus! {

/// The values among `outs`, in order.
pub open spec fn somes<T>(outs: Seq<Option<T>>) -> Seq<T>
    decreases outs.len(),
{
    if outs.len() == 0 {
        seq![]
    } else {
        let p = somes(outs.drop_last());
        match outs.last() {
            Some(v) => p.push(v),
            None => p,
        }
    }
}

/// `outs` are what `f` may return on `items`, one for one.
pub open spec fn decoded_all<T, F: Fn(&str) -> Option<T>>(
    f: F,
    items: Seq<Seq<char>>,
    outs: Seq<Option<T>>,
) -> bool {
    outs.len() == items.len() && forall|i: int|
        0 <= i < items.len() ==> decodes(f, items[i], #[trigger] outs[i])
}

/// `r` holds what `f` gives on `items`, less the items it refuses.
pub open spec fn decoded_values<T, F: Fn(&str) -> Option<T>>(
    f: F,
    items: Seq<Seq<char>>,
    r: Seq<T>,
) -> bool {
    exists|outs: Seq<Option<T>>| decoded_all(f, items, outs) && r == somes(outs)
}

/// Hands each item to `f` and keeps what it returns.
fn decode_each<T, F: Fn(&str) -> Option<T>>(f: &F, items: &[Vec<char>]) -> (r: Vec<T>)
    requires
        forall|s: &str| f.requires((s,)),
    ensures
        decoded_values(*f, views(items@), r@),
{
    let ghost all = views(items@);
    let ghost mut outs: Seq<Option<T>> = seq![];
    let mut data: Vec<T> = Vec::new();
    let mut i: usize = 0;
    while i < items.len()
        invariant
            forall|s: &str| f.requires((s,)),
            all == views(items@),
            i <= items@.len(),
            decoded_all(*f, all.take(i as int), outs),
            data@ == somes(outs),
        decreases items@.len() - i,
    {
        let st = string_of(items[i].as_slice());
        let o = f(st.as_str());
        assert(decodes(*f, all[i as int], o));
        let ghost prev = outs;
        proof {
            outs = outs.push(o);
            assert(outs.drop_last() =~= prev);
        }
        match o {
            Some(v) => data.push(v),
            None => {},
        }
        i += 1;
        assert forall|k: int| 0 <= k < all.take(i as int).len() implies decodes(
            *f,
            all.take(i as int)[k],
            #[trigger] outs[k],
        ) by {
            if k < i - 1 {
                assert(all.take(i - 1)[k] == all.take(i as int)[k]);
            }
        }
    }
    assert(all.take(items@.len() as int) =~= all);
    data
}

/// The position of the first `c` in `s`, or -1.
pub open spec fn find_char(s: Seq<char>, c: char) -> int
    decreases s.len(),
{
    if s.len() == 0 {
        -1
    } else {
        let p = find_char(s.drop_last(), c);
        if p >= 0 {
            p
        } else if s.last() == c {
            s.len() - 1
        } else {
            -1
        }
    }
}

proof fn lemma_find_char_range(s: Seq<char>, c: char)
    ensures
        -1 <= find_char(s, c) < s.len(),
    decreases s.len(),
{
    if s.len() > 0 {
        lemma_find_char_range(s.drop_last(), c);
    }
}

proof fn lemma_find_char_stays(s: Seq<char>, c: char, m: int)
    requires
        0 <= m <= s.len(),
        find_char(s.take(m), c) >= 0,
    ensures
        find_char(s, c) == find_char(s.take(m), c),
    decreases s.len() - m,
{
    if m < s.len() {
        assert(s.take(m + 1).drop_last() =~= s.take(m));
        lemma_find_char_stays(s, c, m + 1);
    } else {
        assert(s.take(m) =~= s);
    }
}

/// The position of the first `c` in `s`.
fn first_char(s: &[char], c: char) -> (r: Option<usize>)
    ensures
        match r {
            Some(k) => find_char(s@, c) == k,
            None => find_char(s@, c) == -1,
        },
        r is Some ==> r->0 < s@.len(),
{
    let mut i: usize = 0;
    assert(s@.take(0) =~= seq![]);
    while i < s.len()
        invariant
            i <= s@.len(),
            find_char(s@.take(i as int), c) == -1,
        decreases s@.len() - i,
    {
        assert(s@.take(i + 1).drop_last() =~= s@.take(i as int));
        if s[i] == c {
            proof {
                assert(find_char(s@.take(i + 1), c) == i);
                lemma_find_char_stays(s@, c, i + 1);
            }
            return Some(i);
        }
        i += 1;
    }
    assert(s@.take(s@.len() as int) =~= s@);
    None
}

/// The element text of a uniform declaration line: the one value from
/// its first `(` to its first `)`, brackets included.
pub open spec fn uniform_items(l: Seq<char>) -> Result<Seq<Seq<char>>, FoamError> {
    let a = find_char(l, '(');
    let e = find_char(l, ')');
    if a >= 0 && e >= 0 && a < e {
        Ok(seq![l.subrange(a, e + 1)])
    } else {
        Err(FoamError::MalformedUniform)
    }
}

/// The element texts of a nonuniform declaration at line `i`: its count
/// `n` on the next line, then, after two more lines, `n` lines.
pub open spec fn nonuniform_items(ls: Seq<Seq<char>>, i: int) -> Result<
    (Seq<Seq<char>>, usize),
    FoamError,
> {
    if i + 1 >= ls.len() {
        Err(FoamError::MissingFieldCount)
    } else {
        match unsigned_of(ls[i + 1]) {
            None => Err(FoamError::MissingFieldCount),
            Some(n) => if i + 3 + n > ls.len() {
                Err(FoamError::FieldTooShort)
            } else {
                Ok((ls.subrange(i + 3, i + 3 + n), n))
            },
        }
    }
}

/// The first line that starts with `internalField`, or -1.
pub open spec fn first_decl(ls: Seq<Seq<char>>) -> int
    decreases ls.len(),
{
    if ls.len() == 0 {
        -1
    } else {
        let p = first_decl(ls.drop_last());
        if p >= 0 {
            p
        } else if has_prefix(ls.last(), "internalField"@) {
            ls.len() - 1
        } else {
            -1
        }
    }
}

proof fn lemma_first_decl_stays(ls: Seq<Seq<char>>, m: int)
    requires
        0 <= m <= ls.len(),
        first_decl(ls.take(m)) >= 0,
    ensures
        first_decl(ls) == first_decl(ls.take(m)),
    decreases ls.len() - m,
{
    if m < ls.len() {
        assert(ls.take(m + 1).drop_last() =~= ls.take(m));
        lemma_first_decl_stays(ls, m + 1);
    } else {
        assert(ls.take(m) =~= ls);
    }
}

/// The element texts that the lines `ls` of a field file declare, with the
/// declared count for a nonuniform declaration.
pub open spec fn field_items(ls: Seq<Seq<char>>) -> Result<(Seq<Seq<char>>, Option<usize>), FoamError> {
    let i = first_decl(ls);
    if i < 0 {
        Err(FoamError::FieldNotFound)
    } else if occurs(ls[i], "nonuniform"@) {
        match nonuniform_items(ls, i) {
            Ok((items, n)) => Ok((items, Some(n))),
            Err(e) => Err(e),
        }
    } else if occurs(ls[i], "uniform"@) {
        match uniform_items(ls[i]) {
            Ok(items) => Ok((items, None)),
            Err(e) => Err(e),
        }
    } else {
        Err(FoamError::FieldKindMissing)
    }
}

/// What a read of element texts `items` with `f` may give: the decoded
/// values, which for a declared count `expected` must be that many.
pub open spec fn items_outcome<T, F: Fn(&str) -> Option<T>>(
    f: F,
    items: Seq<Seq<char>>,
    expected: Option<usize>,
    r: Result<Vec<T>, FoamError>,
) -> bool {
    exists|outs: Seq<Option<T>>|
        #![trigger decoded_all(f, items, outs)]
        decoded_all(f, items, outs) && match expected {
            None => r is Ok && r->Ok_0@ == somes(outs),
            Some(n) => if somes(outs).len() == n {
                r is Ok && r->Ok_0@ == somes(outs)
            } else {
                r == Err::<Vec<T>, FoamError>(
                    FoamError::CountMismatch { expected: n, found: somes(outs).len() as usize },
                )
            },
        }
}

/// What reading the field file `t` with `f` may give.
pub open spec fn field_outcome<T, F: Fn(&str) -> Option<T>>(
    f: F,
    t: Seq<char>,
    r: Result<Vec<T>, FoamError>,
) -> bool {
    match field_items(lines_of(t)) {
        Err(e) => r == Err::<Vec<T>, FoamError>(e),
        Ok((items, expected)) => items_outcome(f, items, expected, r),
    }
}

/// Decodes a uniform declaration line: the value from its first `(` to
/// its first `)` goes to `parse_fn` once; the result holds what it gives,
/// or nothing where it refuses the value.
pub fn parse_internal_field_data_uniform<T, F: Fn(&str) -> Option<T>>(
    line: &str,
    parse_fn: F,
) -> (r: Result<Vec<T>, FoamError>)
    requires
        forall|s: &str| parse_fn.requires((s,)),
    ensures
        match uniform_items(line@) {
            Ok(items) => items_outcome(parse_fn, items, None, r),
            Err(e) => r == Err::<Vec<T>, FoamError>(e),
        },
{
    let l = chars_of(line);
    let a = first_char(l.as_slice(), '(');
    let e = first_char(l.as_slice(), ')');
    match (a, e) {
        (Some(a), Some(e)) => {
            if a >= e {
                return Err(FoamError::MalformedUniform);
            }
            let n = l.len();
            let mut value: Vec<char> = Vec::new();
            let mut k: usize = a;
            assert(value@ =~= l@.subrange(a as int, k as int));
            while k <= e
                invariant
                    a < e < l@.len(),
                    n == l@.len(),
                    a <= k <= e + 1,
                    value@ == l@.subrange(a as int, k as int),
                decreases e + 1 - k,
            {
                value.push(l[k]);
                k += 1;
                assert(value@ =~= l@.subrange(a as int, k as int));
            }
            let items: Vec<Vec<char>> = vec![value];
            assert(views(items@) =~= seq![l@.subrange(a as int, e + 1)]);
            let v = decode_each(&parse_fn, items.as_slice());
            Ok(v)
        },
        _ => Err(FoamError::MalformedUniform),
    }
}

/// Decodes a nonuniform declaration at line `start` of `content`: the
/// next line holds the count `n`; after two more lines come `n` element
/// lines, each handed to `parse_fn`. Fewer lines than declared, or fewer
/// values than declared, fail the read.
pub fn parse_internal_field_data_nonuniform<T, F: Fn(&str) -> Option<T>>(
    content: &Vec<Vec<char>>,
    start: usize,
    parse_fn: F,
) -> (r: Result<Vec<T>, FoamError>)
    requires
        forall|s: &str| parse_fn.requires((s,)),
    ensures
        match nonuniform_items(views(content@), start as int) {
            Ok((items, n)) => items_outcome(parse_fn, items, Some(n), r),
            Err(e) => r == Err::<Vec<T>, FoamError>(e),
        },
{
    let ghost all = views(content@);
    let len = content.len();
    if start >= len || len - start < 2 {
        return Err(FoamError::MissingFieldCount);
    }
    assert(all[start + 1] == content@[start + 1]@);
    let n = match parse_unsigned(content[start + 1].as_slice()) {
        Some(n) => n,
        None => {
            return Err(FoamError::MissingFieldCount);
        },
    };
    if len - start < 3 || n > len - start - 3 {
        return Err(FoamError::FieldTooShort);
    }
    let lines = &content.as_slice()[start + 3..start + 3 + n];
    let ghost items = all.subrange(start + 3, start + 3 + n);
    assert(views(lines@) =~= items);
    let v = decode_each(&parse_fn, lines);
    if v.len() != n {
        return Err(FoamError::CountMismatch { expected: n, found: v.len() });
    }
    Ok(v)
}

/// Reads the first `internalField` declaration of a field file, decoding
/// each element with `parse_fn`.
pub fn parse_internal_field<T, F: Fn(&str) -> Option<T>>(text: &str, parse_fn: F) -> (r: Result<
    Vec<T>,
    FoamError,
>)
    requires
        forall|s: &str| parse_fn.requires((s,)),
    ensures
        field_outcome(parse_fn, text@, r),
{
    let t = chars_of(text);
    let content = split_lines(t.as_slice());
    let ghost all = views(content@);
    let kw_decl = chars_of("internalField");
    let kw_non = chars_of("nonuniform");
    let kw_uni = chars_of("uniform");
    let mut i: usize = 0;
    assert(all.take(0) =~= seq![]);
    while i < content.len()
        invariant
            all == views(content@),
            all == lines_of(text@),
            i <= content@.len(),
            first_decl(all.take(i as int)) == -1,
            kw_decl@ == "internalField"@,
            kw_non@ == "nonuniform"@,
            kw_uni@ == "uniform"@,
            forall|s: &str| parse_fn.requires((s,)),
        decreases content@.len() - i,
    {
        assert(all.take(i + 1).drop_last() =~= all.take(i as int));
        let line = content[i].as_slice();
        assert(all[i as int] == line@);
        if crate::text::starts_with(line, kw_decl.as_slice()) {
            proof {
                assert(first_decl(all.take(i + 1)) == i);
                lemma_first_decl_stays(all, i + 1);
            }
            if contains(line, kw_non.as_slice()) {
                return parse_internal_field_data_nonuniform(&content, i, parse_fn);
            } else if contains(line, kw_uni.as_slice()) {
                let s = string_of(line);
                return parse_internal_field_data_uniform(s.as_str(), parse_fn);
            }
            return Err(FoamError::FieldKindMissing);
        }
        i += 1;
    }
    assert(all.take(all.len() as int) =~= all);
    Err(FoamError::FieldNotFound)
}

/// Decodes a bracketed line `(a b c)`: each word between white space goes
/// to `parse_fn`, and the words it refuses are left out. `None` where the
/// line does not start with `(` and end with `)`.
pub fn parse_vals_from_brackets<T, F: Fn(&str) -> Option<T>>(s: &str, parse_fn: F) -> (r: Option<
    Vec<T>,
>)
    requires
        forall|x: &str| parse_fn.requires((x,)),
    ensures
        match r {
            Some(v) => s@.len() >= 2 && s@[0] == '(' && s@.last() == ')' && decoded_values(
                parse_fn,
                runs(s@.subrange(1, s@.len() - 1), false),
                v@,
            ),
            None => !(s@.len() >= 2 && s@[0] == '(' && s@.last() == ')'),
        },
{
    let l = chars_of(s);
    if l.len() < 2 || l[0] != '(' || l[l.len() - 1] != ')' {
        return None;
    }
    let mut inner: Vec<char> = Vec::new();
    let mut k: usize = 1;
    while k < l.len() - 1
        invariant
            2 <= l@.len(),
            1 <= k <= l@.len() - 1,
            inner@ == l@.subrange(1, k as int),
        decreases l@.len() - k,
    {
        inner.push(l[k]);
        k += 1;
        assert(inner@ =~= l@.subrange(1, k as int));
    }
    let words = runs_in(inner.as_slice(), false);
    Some(decode_each(&parse_fn, words.as_slice()))
}

proof fn lemma_find_char_absent(s: Seq<char>, c: char)
    requires
        forall|j: int| 0 <= j < s.len() ==> #[trigger] s[j] != c,
    ensures
        find_char(s, c) == -1,
    decreases s.len(),
{
    if s.len() > 0 {
        let s0 = s.drop_last();
        assert(forall|j: int| 0 <= j < s0.len() ==> #[trigger] s0[j] == s[j]);
        lemma_find_char_absent(s0, c);
    }
}

proof fn lemma_find_char_concat(a: Seq<char>, b: Seq<char>, c: char)
    ensures
        find_char(a + b, c) == (if find_char(a, c) >= 0 {
            find_char(a, c)
        } else if find_char(b, c) >= 0 {
            a.len() + find_char(b, c)
        } else {
            -1
        }),
    decreases b.len(),
{
    if b.len() == 0 {
        assert(a + b =~= a);
    } else {
        lemma_find_char_concat(a, b.drop_last(), c);
        assert((a + b).drop_last() =~= a + b.drop_last());
        lemma_find_char_range(a, c);
    }
}

/// A uniform declaration line whose brackets hold the value `c` and a
/// nonuniform declaration that lists the same bracketed value as its one
/// element have the same element texts.
pub proof fn lemma_uniform_nonuniform_items(
    pre: Seq<char>,
    c: Seq<char>,
    post: Seq<char>,
    ls: Seq<Seq<char>>,
    i: int,
)
    requires
        forall|j: int| 0 <= j < pre.len() ==> #[trigger] pre[j] != '(' && pre[j] != ')',
        forall|j: int| 0 <= j < c.len() ==> #[trigger] c[j] != '(' && c[j] != ')',
        0 <= i,
        i + 4 <= ls.len(),
        unsigned_of(ls[i + 1]) == Some(1usize),
        ls[i + 3] == seq!['('] + c + seq![')'],
    ensures
        uniform_items(pre + seq!['('] + c + seq![')'] + post) == Ok::<Seq<Seq<char>>, FoamError>(
            seq![seq!['('] + c + seq![')']],
        ),
        nonuniform_items(ls, i) == Ok::<(Seq<Seq<char>>, usize), FoamError>(
            (seq![seq!['('] + c + seq![')']], 1usize),
        ),
{
    let l1 = pre + seq!['('];
    let l2 = l1 + c;
    let l3 = l2 + seq![')'];
    let l = l3 + post;
    lemma_find_char_absent(pre, '(');
    lemma_find_char_absent(pre, ')');
    lemma_find_char_absent(c, '(');
    lemma_find_char_absent(c, ')');
    lemma_find_char_concat(pre, seq!['('], '(');
    lemma_find_char_concat(pre, seq!['('], ')');
    lemma_find_char_absent(seq!['('], ')');
    lemma_find_char_concat(l1, c, '(');
    lemma_find_char_concat(l1, c, ')');
    lemma_find_char_concat(l2, seq![')'], '(');
    lemma_find_char_concat(l2, seq![')'], ')');
    lemma_find_char_concat(l3, post, '(');
    lemma_find_char_concat(l3, post, ')');
    assert(find_char(Seq::<char>::empty(), '(') == -1);
    assert(find_char(Seq::<char>::empty(), ')') == -1);
    assert(seq!['('].drop_last() =~= Seq::<char>::empty());
    assert(seq![')'].drop_last() =~= Seq::<char>::empty());
    assert(find_char(seq!['('], '(') == 0);
    assert(find_char(seq![')'], ')') == 0);
    assert(find_char(l, '(') == pre.len());
    assert(find_char(l, ')') == pre.len() + 1 + c.len());
    assert(l.subrange(pre.len() as int, pre.len() + c.len() + 2int) =~= seq!['('] + c + seq![')']);
    assert(ls.subrange(i + 3, i + 4) =~= seq![seq!['('] + c + seq![')']]);
}

proof fn lemma_somes_len<T>(outs: Seq<Option<T>>)
    requires
        forall|i: int| 0 <= i < outs.len() ==> (#[trigger] outs[i]) is Some,
    ensures
        somes(outs).len() == outs.len(),
    decreases outs.len(),
{
    if outs.len() > 0 {
        let q = outs.drop_last();
        assert forall|i: int| 0 <= i < q.len() implies (#[trigger] q[i]) is Some by {
            assert(q[i] == outs[i]);
        }
        lemma_somes_len(q);
        assert(outs[outs.len() - 1] is Some);
    }
}

/// A decoder that gives one value for equal texts and accepts every text
/// of `items` decodes them to the same values whether they came from a
/// uniform declaration (no count) or a nonuniform one (their count).
pub proof fn lemma_same_items_same_values<T, F: Fn(&str) -> Option<T>>(
    f: F,
    items: Seq<Seq<char>>,
    r1: Result<Vec<T>, FoamError>,
    r2: Result<Vec<T>, FoamError>,
)
    requires
        forall|s1: &str, s2: &str, o1: Option<T>, o2: Option<T>|
            s1@ == s2@ && #[trigger] f.ensures((s1,), o1) && #[trigger] f.ensures((s2,), o2) ==> o1
                == o2,
        forall|i: int, o: Option<T>|
            0 <= i < items.len() && #[trigger] decodes(f, items[i], o) ==> o is Some,
        items.len() <= usize::MAX,
        items_outcome(f, items, None, r1),
        items_outcome(f, items, Some(items.len() as usize), r2),
    ensures
        r1 is Ok,
        r2 is Ok,
        r1->Ok_0@ == r2->Ok_0@,
{
    let outs1 = choose|outs: Seq<Option<T>>|
        #![trigger decoded_all(f, items, outs)]
        decoded_all(f, items, outs) && r1 is Ok && r1->Ok_0@ == somes(outs);
    let outs2 = choose|outs: Seq<Option<T>>|
        #![trigger decoded_all(f, items, outs)]
        decoded_all(f, items, outs) && if somes(outs).len() == items.len() as usize {
            r2 is Ok && r2->Ok_0@ == somes(outs)
        } else {
            r2 == Err::<Vec<T>, FoamError>(
                FoamError::CountMismatch {
                    expected: items.len() as usize,
                    found: somes(outs).len() as usize,
                },
            )
        };
    assert forall|i: int| 0 <= i < items.len() implies outs1[i] == outs2[i] && (
    #[trigger] outs2[i]) is Some by {
        assert(decodes(f, items[i], outs1[i]));
        assert(decodes(f, items[i], outs2[i]));
        let s1 = choose|s: &str| s@ == items[i] && #[trigger] f.ensures((s,), outs1[i]);
        let s2 = choose|s: &str| s@ == items[i] && #[trigger] f.ensures((s,), outs2[i]);
    }
    assert(outs1 =~= outs2);
    lemma_somes_len(outs2);
}

} // verus!
