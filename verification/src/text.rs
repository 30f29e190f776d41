//! Character-sequence utilities: whitespace trimming, line splitting and
//! leading-marker stripping, with executable counterparts proved against the
//! specification functions.

use vstd::prelude::*;
use vstd::std_specs::iter::IteratorSpec;

verus! {

/// The characters with the Unicode `White_Space` property, the set that
/// `str::trim` removes from both ends of a string.
pub open spec fn is_ws(c: char) -> bool {
    ||| c == ' '
    ||| c == '\t'
    ||| c == '\n'
    ||| c == '\r'
    ||| c == '\u{000B}'
    ||| c == '\u{000C}'
    ||| c == '\u{0085}'
    ||| c == '\u{00A0}'
    ||| c == '\u{1680}'
    ||| c == '\u{2000}'
    ||| c == '\u{2001}'
    ||| c == '\u{2002}'
    ||| c == '\u{2003}'
    ||| c == '\u{2004}'
    ||| c == '\u{2005}'
    ||| c == '\u{2006}'
    ||| c == '\u{2007}'
    ||| c == '\u{2008}'
    ||| c == '\u{2009}'
    ||| c == '\u{200A}'
    ||| c == '\u{2028}'
    ||| c == '\u{2029}'
    ||| c == '\u{202F}'
    ||| c == '\u{205F}'
    ||| c == '\u{3000}'
}

/// Whether `c` has the Unicode `White_Space` property.
pub fn is_whitespace_char(c: char) -> (r: bool)
    ensures
        r == is_ws(c),
{
    match c {
        ' ' | '\t' | '\n' | '\r' | '\u{000B}' | '\u{000C}' | '\u{0085}' | '\u{00A0}' | '\u{1680}'
            | '\u{2000}' | '\u{2001}' | '\u{2002}' | '\u{2003}' | '\u{2004}' | '\u{2005}'
            | '\u{2006}' | '\u{2007}' | '\u{2008}' | '\u{2009}' | '\u{200A}' | '\u{2028}'
            | '\u{2029}' | '\u{202F}' | '\u{205F}' | '\u{3000}' => true,
        _ => false,
    }
}

/// `s` without its leading whitespace.
pub open spec fn trim_start_chars(s: Seq<char>) -> Seq<char>
    decreases s.len(),
{
    if s.len() > 0 && is_ws(s[0]) {
        trim_start_chars(s.drop_first())
    } else {
        s
    }
}

/// `s` without its trailing whitespace.
pub open spec fn trim_end_chars(s: Seq<char>) -> Seq<char>
    decreases s.len(),
{
    if s.len() > 0 && is_ws(s.last()) {
        trim_end_chars(s.drop_last())
    } else {
        s
    }
}

/// `s` without leading and trailing whitespace: what `str::trim` returns.
pub open spec fn trim_chars(s: Seq<char>) -> Seq<char> {
    trim_end_chars(trim_start_chars(s))
}

proof fn lemma_trim_start_skip(s: Seq<char>, a: int)
    requires
        0 <= a <= s.len(),
        forall|k: int| 0 <= k < a ==> is_ws(s[k]),
        a == s.len() || !is_ws(s[a]),
    ensures
        trim_start_chars(s) == s.skip(a),
    decreases a,
{
    if a == 0 {
        assert(s.skip(0) =~= s);
    } else {
        assert(is_ws(s[0]));
        lemma_trim_start_skip(s.drop_first(), a - 1);
        assert(s.drop_first().skip(a - 1) =~= s.skip(a));
    }
}

proof fn lemma_trim_end_take(s: Seq<char>, b: int)
    requires
        0 <= b <= s.len(),
        forall|k: int| b <= k < s.len() ==> is_ws(s[k]),
        b == 0 || !is_ws(s[b - 1]),
    ensures
        trim_end_chars(s) == s.take(b),
    decreases s.len() - b,
{
    if b == s.len() {
        assert(s.take(b) =~= s);
    } else {
        assert(is_ws(s.last()));
        lemma_trim_end_take(s.drop_last(), b);
        assert(s.drop_last().take(b) =~= s.take(b));
    }
}

/// A copy of `v` without leading and trailing whitespace.
pub fn trim_vec(v: &Vec<char>) -> (r: Vec<char>)
    ensures
        r@ == trim_chars(v@),
{
    let n = v.len();
    let mut a: usize = 0;
    while a < n && is_whitespace_char(v[a])
        invariant
            0 <= a <= n,
            n == v@.len(),
            forall|k: int| 0 <= k < a ==> is_ws(v@[k]),
        decreases n - a,
    {
        a = a + 1;
    }
    proof {
        lemma_trim_start_skip(v@, a as int);
    }
    let mut b: usize = n;
    while b > a && is_whitespace_char(v[b - 1])
        invariant
            a <= b <= n,
            n == v@.len(),
            forall|k: int| b <= k < n ==> is_ws(v@[k]),
        decreases b,
    {
        b = b - 1;
    }
    proof {
        let t = v@.skip(a as int);
        assert(forall|k: int| b - a <= k < t.len() ==> is_ws(t[k]));
        lemma_trim_end_take(t, b - a);
    }
    let mut out: Vec<char> = Vec::new();
    let mut k: usize = a;
    while k < b
        invariant
            a <= k <= b <= n,
            n == v@.len(),
            out@ == v@.subrange(a as int, k as int),
        decreases b - k,
    {
        out.push(v[k]);
        assert(out@ =~= v@.subrange(a as int, k + 1));
        k = k + 1;
    }
    assert(out@ =~= v@.skip(a as int).take(b - a));
    out
}

/// `l` without its leading run of `#` characters: what
/// `str::trim_start_matches('#')` returns.
pub open spec fn strip_hashes(l: Seq<char>) -> Seq<char>
    decreases l.len(),
{
    if l.len() > 0 && l[0] == '#' {
        strip_hashes(l.drop_first())
    } else {
        l
    }
}

proof fn lemma_strip_hashes_skip(l: Seq<char>, a: int)
    requires
        0 <= a <= l.len(),
        forall|k: int| 0 <= k < a ==> l[k] == '#',
        a == l.len() || l[a] != '#',
    ensures
        strip_hashes(l) == l.skip(a),
    decreases a,
{
    if a == 0 {
        assert(l.skip(0) =~= l);
    } else {
        lemma_strip_hashes_skip(l.drop_first(), a - 1);
        assert(l.drop_first().skip(a - 1) =~= l.skip(a));
    }
}

/// A copy of `l` without its leading run of `#` characters.
pub fn strip_hashes_vec(l: &Vec<char>) -> (r: Vec<char>)
    ensures
        r@ == strip_hashes(l@),
{
    let n = l.len();
    let mut a: usize = 0;
    while a < n && l[a] == '#'
        invariant
            0 <= a <= n,
            n == l@.len(),
            forall|k: int| 0 <= k < a ==> l@[k] == '#',
        decreases n - a,
    {
        a = a + 1;
    }
    proof {
        lemma_strip_hashes_skip(l@, a as int);
    }
    let mut out: Vec<char> = Vec::new();
    let mut k: usize = a;
    while k < n
        invariant
            a <= k <= n,
            n == l@.len(),
            out@ == l@.subrange(a as int, k as int),
        decreases n - k,
    {
        out.push(l[k]);
        assert(out@ =~= l@.subrange(a as int, k + 1));
        k = k + 1;
    }
    assert(out@ =~= l@.skip(a as int));
    out
}

/// The index of the last newline in `s`, or a negative value if none.
pub open spec fn find_last_nl(s: Seq<char>) -> int
    decreases s.len(),
{
    if s.len() == 0 {
        -1
    } else if s.last() == '\n' {
        s.len() - 1
    } else {
        find_last_nl(s.drop_last())
    }
}

/// `s` split at every newline, as `str::split('\n')` yields it: one segment
/// more than there are newlines, so an empty input gives one empty segment
/// and a trailing newline ends with an empty segment.
pub open spec fn split_lines(s: Seq<char>) -> Seq<Seq<char>>
    decreases s.len(),
{
    let i = find_last_nl(s);
    if 0 <= i && i < s.len() {
        split_lines(s.take(i)).push(s.skip(i + 1))
    } else {
        seq![s]
    }
}

proof fn lemma_find_last_nl_bounds(s: Seq<char>)
    ensures
        -1 <= find_last_nl(s) < s.len(),
    decreases s.len(),
{
    if s.len() == 0 {
    } else if s.last() == '\n' {
    } else {
        lemma_find_last_nl_bounds(s.drop_last());
    }
}

/// Appending a character other than a newline extends the last line and
/// leaves the completed lines unchanged.
pub proof fn lemma_split_lines_push_char(t: Seq<char>, c: char)
    requires
        c != '\n',
    ensures
        split_lines(t.push(c)).len() >= 1,
        split_lines(t.push(c)).drop_last() == split_lines(t).drop_last(),
        split_lines(t.push(c)).last() == split_lines(t).last().push(c),
{
    let tp = t.push(c);
    lemma_find_last_nl_bounds(t);
    assert(tp.drop_last() =~= t);
    assert(tp.last() == c);
    let i = find_last_nl(t);
    assert(find_last_nl(tp) == i);
    if 0 <= i {
        assert(tp.take(i) =~= t.take(i));
        assert(tp.skip(i + 1) =~= t.skip(i + 1).push(c));
        assert(split_lines(tp) == split_lines(t.take(i)).push(t.skip(i + 1).push(c)));
        assert(split_lines(tp).drop_last() =~= split_lines(t.take(i)).push(t.skip(i + 1)).drop_last());
    } else {
        assert(split_lines(tp) == seq![tp]);
        assert(split_lines(t) == seq![t]);
        assert(split_lines(tp).drop_last() =~= split_lines(t).drop_last());
    }
}

/// Appending a newline completes the last line and starts an empty one.
pub proof fn lemma_split_lines_push_nl(t: Seq<char>)
    ensures
        split_lines(t.push('\n')).len() >= 1,
        split_lines(t.push('\n')).drop_last() == split_lines(t),
        split_lines(t.push('\n')).last() == Seq::<char>::empty(),
{
    let tp = t.push('\n');
    assert(tp.last() == '\n');
    assert(find_last_nl(tp) == tp.len() - 1);
    assert(tp.take(tp.len() - 1) =~= t);
    assert(tp.skip(tp.len() as int) =~= Seq::<char>::empty());
    assert(split_lines(tp) == split_lines(t).push(Seq::<char>::empty()));
    assert(split_lines(tp).drop_last() =~= split_lines(t));
}

/// The characters of `s`, in order, as a vector.
pub fn chars_of(s: &str) -> (r: Vec<char>)
    ensures
        r@ == s@,
{
    let mut out: Vec<char> = Vec::new();
    for c in it: s.chars()
        invariant
            it.seq() == s@,
            out@ == it.seq().take(it.index() as int),
    {
        out.push(c);
        assert(out@ =~= it.seq().take(it.index() + 1));
    }
    assert(out@ =~= s@);
    out
}

/// Appends every character of `src` to `dst`.
pub fn push_chars(dst: &mut Vec<char>, src: &Vec<char>)
    ensures
        final(dst)@ == old(dst)@ + src@,
{
    let mut k: usize = 0;
    while k < src.len()
        invariant
            0 <= k <= src@.len(),
            dst@ == old(dst)@ + src@.take(k as int),
        decreases src@.len() - k,
    {
        dst.push(src[k]);
        assert(dst@ =~= old(dst)@ + src@.take(k + 1));
        k = k + 1;
    }
    assert(old(dst)@ + src@.take(src@.len() as int) =~= old(dst)@ + src@);
}

/// Relies on `String: FromIterator<&char>`: collecting the characters of a
/// vector yields the string of exactly those characters, in order.
#[verifier::external_body]
pub fn string_from_chars(v: &Vec<char>) -> (r: String)
    ensures
        r@ == v@,
{
    v.iter().collect()
}

} // verus!
