//! Character-level helpers: lines, trimming, integer tokens.
use vstd::prelude::*;
use crate::number::is_digit;

verus! {

/// Relies on `String::push`: appends one character.
#[verifier::external_body]
fn push_char(s: &mut String, c: char)
    ensures
        final(s)@ == old(s)@.push(c),
{
    s.push(c)
}

/// The characters of `s`, in order.
pub fn chars_of(s: &str) -> (r: Vec<char>)
    ensures
        r@ == s@,
{
    let mut r: Vec<char> = Vec::new();
    broadcast use vstd::string::group_string_axioms;
    for c in iter: s.chars()
        invariant
            iter.seq() == s@,
            r@ == iter.seq().take(iter.index() as int),
    {
        r.push(c);
        assert(r@ =~= iter.seq().take(iter.index() + 1));
    }
    assert(r@ =~= s@);
    r
}

/// A `String` holding the characters of `v`.
pub fn string_of(v: &[char]) -> (r: String)
    ensures
        r@ == v@,
{
    let mut r = String::new();
    let mut i: usize = 0;
    while i < v.len()
        invariant
            i <= v@.len(),
            r@ == v@.subrange(0, i as int),
        decreases v@.len() - i,
    {
        push_char(&mut r, v[i]);
        i += 1;
        assert(r@ =~= v@.subrange(0, i as int));
    }
    assert(v@.subrange(0, v@.len() as int) =~= v@);
    r
}

/// The pieces of `t` between occurrences of `sep`, in order, as
/// `str::split` gives them. A text that ends in `sep` has an empty last
/// piece; every text has at least one piece.
pub open spec fn pieces(t: Seq<char>, sep: char) -> Seq<Seq<char>>
    decreases t.len(),
{
    if t.len() == 0 {
        seq![Seq::empty()]
    } else {
        let p = pieces(t.drop_last(), sep);
        if t.last() == sep {
            p.push(Seq::empty())
        } else {
            p.update(p.len() - 1, p.last().push(t.last()))
        }
    }
}

/// The lines of `t`: the pieces between line feeds.
pub open spec fn lines_of(t: Seq<char>) -> Seq<Seq<char>> {
    pieces(t, '\n')
}

/// The characters of each line.
pub open spec fn views(ls: Seq<Vec<char>>) -> Seq<Seq<char>> {
    ls.map_values(|l: Vec<char>| l@)
}

pub proof fn lemma_pieces_nonempty(t: Seq<char>, sep: char)
    ensures
        pieces(t, sep).len() >= 1,
    decreases t.len(),
{
    if t.len() > 0 {
        lemma_pieces_nonempty(t.drop_last(), sep);
    }
}

pub proof fn lemma_lines_count(t: Seq<char>)
    ensures
        lines_of(t).len() <= t.len() + 1,
    decreases t.len(),
{
    if t.len() > 0 {
        lemma_lines_count(t.drop_last());
        lemma_pieces_nonempty(t.drop_last(), '\n');
    }
}

/// Splits `t` at each line feed.
pub fn split_lines(t: &[char]) -> (r: Vec<Vec<char>>)
    ensures
        views(r@) == lines_of(t@),
{
    split_on(t, '\n')
}

/// Splits `t` at each `sep`.
pub fn split_on(t: &[char], sep: char) -> (r: Vec<Vec<char>>)
    ensures
        views(r@) == pieces(t@, sep),
{
    let mut done: Vec<Vec<char>> = Vec::new();
    let mut cur: Vec<char> = Vec::new();
    let mut i: usize = 0;
    proof {
        assert(t@.take(0) =~= Seq::<char>::empty());
        assert(views(done@).push(cur@) =~= pieces(t@.take(0), sep));
    }
    while i < t.len()
        invariant
            i <= t@.len(),
            views(done@).push(cur@) == pieces(t@.take(i as int), sep),
        decreases t@.len() - i,
    {
        let c = t[i];
        proof {
            assert(t@.take(i + 1).drop_last() =~= t@.take(i as int));
            lemma_pieces_nonempty(t@.take(i as int), sep);
        }
        if c == sep {
            let ghost old_cur = cur@;
            done.push(cur);
            cur = Vec::new();
            assert(views(done@).push(cur@) =~= pieces(t@.take(i + 1), sep));
        } else {
            cur.push(c);
            assert(views(done@).push(cur@) =~= pieces(t@.take(i + 1), sep));
        }
        i += 1;
    }
    assert(t@.take(t@.len() as int) =~= t@);
    done.push(cur);
    assert(views(done@) =~= pieces(t@, sep));
    done
}

/// Unicode white space, as `char::is_whitespace` defines it.
pub open spec fn is_ws(c: char) -> bool {
    ('\t' <= c && c <= '\r') || c == ' ' || c == '\u{85}' || c == '\u{a0}' || c == '\u{1680}'
        || ('\u{2000}' <= c && c <= '\u{200a}') || c == '\u{2028}' || c == '\u{2029}'
        || c == '\u{202f}' || c == '\u{205f}' || c == '\u{3000}'
}

/// Whether `c` is white space.
pub fn is_white(c: char) -> (r: bool)
    ensures
        r == is_ws(c),
{
    ('\t' <= c && c <= '\r') || c == ' ' || c == '\u{85}' || c == '\u{a0}' || c == '\u{1680}'
        || ('\u{2000}' <= c && c <= '\u{200a}') || c == '\u{2028}' || c == '\u{2029}'
        || c == '\u{202f}' || c == '\u{205f}' || c == '\u{3000}'
}

pub open spec fn trim_start(s: Seq<char>) -> Seq<char>
    decreases s.len(),
{
    if s.len() > 0 && is_ws(s[0]) {
        trim_start(s.drop_first())
    } else {
        s
    }
}

pub open spec fn trim_end(s: Seq<char>) -> Seq<char>
    decreases s.len(),
{
    if s.len() > 0 && is_ws(s.last()) {
        trim_end(s.drop_last())
    } else {
        s
    }
}

/// `s` without white space at either end.
pub open spec fn trim(s: Seq<char>) -> Seq<char> {
    trim_end(trim_start(s))
}

/// A line that holds white space only.
pub open spec fn is_blank(s: Seq<char>) -> bool {
    trim(s).len() == 0
}

/// `s` without white space at either end.
pub fn trimmed(s: &[char]) -> (r: Vec<char>)
    ensures
        r@ == trim(s@),
{
    let n = s.len();
    let mut a: usize = 0;
    assert(s@.subrange(0, n as int) =~= s@);
    while a < n && is_white(s[a])
        invariant
            a <= n == s@.len(),
            trim_start(s@) == trim_start(s@.subrange(a as int, n as int)),
        decreases n - a,
    {
        assert(s@.subrange(a as int, n as int).drop_first() =~= s@.subrange(a + 1, n as int));
        a += 1;
    }
    let mut b: usize = n;
    while b > a && is_white(s[b - 1])
        invariant
            a <= b <= n == s@.len(),
            trim_start(s@) == s@.subrange(a as int, n as int),
            trim(s@) == trim_end(s@.subrange(a as int, b as int)),
        decreases b,
    {
        assert(s@.subrange(a as int, b as int).drop_last() =~= s@.subrange(a as int, b - 1));
        b -= 1;
    }
    let mut r: Vec<char> = Vec::new();
    let mut k: usize = a;
    while k < b
        invariant
            a <= k <= b <= n == s@.len(),
            r@ == s@.subrange(a as int, k as int),
        decreases b - k,
    {
        r.push(s[k]);
        k += 1;
        assert(r@ =~= s@.subrange(a as int, k as int));
    }
    r
}

/// Whether `s` holds white space only.
pub fn blank(s: &[char]) -> (r: bool)
    ensures
        r == is_blank(s@),
{
    trimmed(s).len() == 0
}

/// `p` is a prefix of `s`.
pub open spec fn has_prefix(s: Seq<char>, p: Seq<char>) -> bool {
    p.len() <= s.len() && s.take(p.len() as int) == p
}

/// `p` occurs in `s`.
pub open spec fn occurs(s: Seq<char>, p: Seq<char>) -> bool {
    exists|k: int| 0 <= k && k + p.len() <= s.len() && #[trigger] s.subrange(k, k + p.len()) == p
}

/// Whether `s` starts with `p`.
pub fn starts_with(s: &[char], p: &[char]) -> (r: bool)
    ensures
        r == has_prefix(s@, p@),
{
    if p.len() > s.len() {
        return false;
    }
    let mut i: usize = 0;
    while i < p.len()
        invariant
            i <= p@.len() <= s@.len(),
            s@.take(i as int) == p@.take(i as int),
        decreases p@.len() - i,
    {
        if s[i] != p[i] {
            assert(s@.take(p@.len() as int)[i as int] != p@[i as int]);
            return false;
        }
        i += 1;
        assert(s@.take(i as int) =~= p@.take(i as int));
    }
    assert(p@.take(p@.len() as int) =~= p@);
    true
}

/// Whether `p` occurs in `s`.
pub fn contains(s: &[char], p: &[char]) -> (r: bool)
    ensures
        r == occurs(s@, p@),
{
    if p.len() > s.len() {
        return false;
    }
    let n = s.len();
    let mut k: usize = 0;
    while k <= n - p.len()
        invariant
            n == s@.len(),
            p@.len() <= s@.len(),
            k <= s@.len() - p@.len() + 1,
            forall|j: int| 0 <= j < k ==> #[trigger] s@.subrange(j, j + p@.len()) != p@,
        decreases s@.len() - k,
    {
        let mut i: usize = 0;
        let mut same = true;
        while i < p.len()
            invariant
                n == s@.len(),
                k + p@.len() <= n,
                i <= p@.len(),
                same == (forall|j: int| 0 <= j < i ==> s@[k + j] == #[trigger] p@[j]),
            decreases p@.len() - i,
        {
            same = same && s[k + i] == p[i];
            i += 1;
        }
        if same {
            assert(s@.subrange(k as int, k + p@.len()) =~= p@);
            return true;
        }
        proof {
            let j = choose|j: int| 0 <= j < p@.len() && s@[k + j] != #[trigger] p@[j];
            assert(s@.subrange(k as int, k + p@.len())[j] != p@[j]);
        }
        k += 1;
    }
    false
}

/// The characters that make up runs: decimal digits where `digits`,
/// else everything but white space.
pub open spec fn in_run(c: char, digits: bool) -> bool {
    if digits {
        is_digit(c)
    } else {
        !is_ws(c)
    }
}

/// The maximal runs of `in_run` characters in `s`, in order.
pub open spec fn runs(s: Seq<char>, digits: bool) -> Seq<Seq<char>>
    decreases s.len(),
{
    if s.len() == 0 {
        seq![]
    } else {
        let p = runs(s.drop_last(), digits);
        let c = s.last();
        if !in_run(c, digits) {
            p
        } else if s.len() >= 2 && in_run(s[s.len() - 2], digits) {
            p.update(p.len() - 1, p.last().push(c))
        } else {
            p.push(seq![c])
        }
    }
}

/// The runs of `in_run` characters in a line.
pub fn runs_in(s: &[char], digits: bool) -> (r: Vec<Vec<char>>)
    ensures
        views(r@) == runs(s@, digits),
{
    let mut done: Vec<Vec<char>> = Vec::new();
    let mut cur: Vec<char> = Vec::new();
    let mut i: usize = 0;
    assert(s@.take(0) =~= seq![]);
    while i < s.len()
        invariant
            i <= s@.len(),
            cur@.len() > 0 ==> views(done@).push(cur@) == runs(s@.take(i as int), digits),
            cur@.len() > 0 ==> i > 0 && in_run(s@[i - 1], digits),
            cur@.len() == 0 ==> views(done@) == runs(s@.take(i as int), digits),
            cur@.len() == 0 ==> !(i > 0 && in_run(s@[i - 1], digits)),
        decreases s@.len() - i,
    {
        let c = s[i];
        let ghost t = s@.take(i + 1);
        assert(t.drop_last() =~= s@.take(i as int));
        if (digits && '0' <= c && c <= '9') || (!digits && !is_white(c)) {
            if cur.len() > 0 {
                assert(t[t.len() - 2] == s@[i - 1]);
                let ghost p = views(done@).push(cur@);
                assert(runs(t, digits) == p.update(p.len() - 1, p.last().push(c)));
                cur.push(c);
                assert(views(done@).push(cur@) =~= runs(t, digits));
            } else {
                assert(i > 0 ==> t[t.len() - 2] == s@[i - 1]);
                cur.push(c);
                assert(cur@ =~= seq![c]);
                assert(views(done@).push(cur@) =~= runs(t, digits));
            }
        } else if cur.len() > 0 {
            done.push(cur);
            cur = Vec::new();
            assert(views(done@) =~= runs(t, digits));
        }
        i += 1;
    }
    assert(s@.take(s@.len() as int) =~= s@);
    if cur.len() > 0 {
        done.push(cur);
        assert(views(done@) =~= runs(s@, digits));
    }
    done
}

} // verus!
