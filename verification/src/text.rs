//! Character-level helpers shared by the manifest and hook-file parsers.
//!
//! All executable functions here are total and carry contracts phrased over
//! `Seq<char>` views, so the parsers above them can state exactly which
//! character sequences they accept.

use vstd::prelude::*;
use vstd::string::StrSliceExecFns;

verus! {

/// Number of occurrences of `c` in `s`.
pub open spec fn count_char(s: Seq<char>, c: char) -> nat
    decreases s.len(),
{
    if s.len() == 0 {
        0
    } else {
        count_char(s.drop_last(), c) + if s.last() == c {
            1nat
        } else {
            0nat
        }
    }
}

/// Index of the first occurrence of `c` in `s`, or -1 if there is none.
pub open spec fn find_char(s: Seq<char>, c: char) -> int
    decreases s.len(),
{
    if s.len() == 0 {
        -1
    } else if s[0] == c {
        0
    } else {
        let r = find_char(s.subrange(1, s.len() as int), c);
        if r < 0 {
            -1
        } else {
            r + 1
        }
    }
}

/// The whitespace characters recognized when trimming text lines.
pub open spec fn is_space(c: char) -> bool {
    c == ' ' || c == '\t' || c == '\r' || c == '\n'
}

/// `s` with leading whitespace removed.
pub open spec fn trim_start(s: Seq<char>) -> Seq<char>
    decreases s.len(),
{
    if s.len() > 0 && is_space(s[0]) {
        trim_start(s.subrange(1, s.len() as int))
    } else {
        s
    }
}

/// `s` with trailing whitespace removed.
pub open spec fn trim_end(s: Seq<char>) -> Seq<char>
    decreases s.len(),
{
    if s.len() > 0 && is_space(s.last()) {
        trim_end(s.drop_last())
    } else {
        s
    }
}

/// `s` with leading and trailing whitespace removed.
pub open spec fn spec_trim(s: Seq<char>) -> Seq<char> {
    trim_end(trim_start(s))
}

proof fn lemma_count_char_snoc(s: Seq<char>, c: char, i: int)
    requires
        0 <= i < s.len(),
    ensures
        count_char(s.subrange(0, i + 1), c) == count_char(s.subrange(0, i), c) + if s[i] == c {
            1nat
        } else {
            0nat
        },
{
    assert(s.subrange(0, i + 1).drop_last() =~= s.subrange(0, i));
    assert(s.subrange(0, i + 1).last() == s[i]);
}

/// `find_char` returns the index of the first occurrence, or -1 if absent.
pub proof fn lemma_find_char(s: Seq<char>, c: char)
    ensures
        find_char(s, c) == -1 ==> forall|j: int| 0 <= j < s.len() ==> s[j] != c,
        find_char(s, c) != -1 ==> 0 <= find_char(s, c) < s.len() && s[find_char(s, c)] == c
            && forall|j: int| 0 <= j < find_char(s, c) ==> s[j] != c,
    decreases s.len(),
{
    if s.len() > 0 && s[0] != c {
        let t = s.subrange(1, s.len() as int);
        lemma_find_char(t, c);
        assert forall|j: int| 1 <= j < s.len() implies s[j] == t[j - 1] by {}
    }
}

/// A character occurs in `s` exactly when its count there is positive.
pub proof fn lemma_count_char_zero(s: Seq<char>, c: char)
    ensures
        (count_char(s, c) == 0) <==> (forall|j: int| 0 <= j < s.len() ==> s[j] != c),
    decreases s.len(),
{
    if s.len() > 0 {
        lemma_count_char_zero(s.drop_last(), c);
        assert forall|j: int| 0 <= j < s.len() - 1 implies s.drop_last()[j] == s[j] by {}
    }
}

/// Number of occurrences of `c` in `s`.
pub fn count_char_exec(s: &str, c: char) -> (n: usize)
    ensures
        n == count_char(s@, c),
{
    let len = s.unicode_len();
    let mut i: usize = 0;
    let mut n: usize = 0;
    while i < len
        invariant
            0 <= i <= len,
            len == s@.len(),
            n == count_char(s@.subrange(0, i as int), c),
            n <= i,
        decreases len - i,
    {
        proof {
            lemma_count_char_snoc(s@, c, i as int);
        }
        if s.get_char(i) == c {
            n = n + 1;
        }
        i = i + 1;
    }
    proof {
        assert(s@.subrange(0, len as int) =~= s@);
    }
    n
}

/// Index of the first occurrence of `c` in `s`, if any.
pub fn find_char_exec(s: &str, c: char) -> (r: Option<usize>)
    ensures
        match r {
            Some(i) => i == find_char(s@, c) && 0 <= i < s@.len() && s@[i as int] == c,
            None => find_char(s@, c) == -1,
        },
{
    let len = s.unicode_len();
    let mut i: usize = 0;
    while i < len
        invariant
            0 <= i <= len,
            len == s@.len(),
            forall|j: int| 0 <= j < i ==> s@[j] != c,
        decreases len - i,
    {
        if s.get_char(i) == c {
            proof {
                lemma_find_char(s@, c);
                let f = find_char(s@, c);
                if f != i as int {
                    assert(f != -1);
                    if f < i as int {
                        assert(s@[f] != c);
                    } else {
                        assert(s@[i as int] != c);
                    }
                }
            }
            return Some(i);
        }
        i = i + 1;
    }
    proof {
        lemma_find_char(s@, c);
        if find_char(s@, c) != -1 {
            assert(s@[find_char(s@, c)] != c);
        }
    }
    None
}

/// The two views are equal exactly when the two slices hold the same text.
pub fn str_eq(a: &str, b: &str) -> (r: bool)
    ensures
        r == (a@ == b@),
{
    let la = a.unicode_len();
    let lb = b.unicode_len();
    if la != lb {
        return false;
    }
    let mut i: usize = 0;
    while i < la
        invariant
            0 <= i <= la,
            la == a@.len(),
            lb == b@.len(),
            la == lb,
            forall|j: int| 0 <= j < i ==> a@[j] == b@[j],
        decreases la - i,
    {
        if a.get_char(i) != b.get_char(i) {
            return false;
        }
        i = i + 1;
    }
    proof {
        assert(a@ =~= b@);
    }
    true
}

/// If the first `b` characters are whitespace and the next one (if any) is
/// not, trimming the start drops exactly those `b` characters.
pub proof fn lemma_trim_start_skip(s: Seq<char>, b: int)
    requires
        0 <= b <= s.len(),
        forall|j: int| 0 <= j < b ==> is_space(s[j]),
        b < s.len() ==> !is_space(s[b]),
    ensures
        trim_start(s) =~= s.subrange(b, s.len() as int),
    decreases b,
{
    if b == 0 {
        if s.len() > 0 {
            assert(!is_space(s[0]));
        }
        assert(s.subrange(0, s.len() as int) =~= s);
    } else {
        assert(is_space(s[0]));
        let t = s.subrange(1, s.len() as int);
        assert forall|j: int| 0 <= j < b - 1 implies is_space(t[j]) by {
            assert(t[j] == s[j + 1]);
        }
        lemma_trim_start_skip(t, b - 1);
        assert(t.subrange(b - 1, t.len() as int) =~= s.subrange(b, s.len() as int));
    }
}

proof fn lemma_trim_end_skip(s: Seq<char>, e: int)
    requires
        0 <= e <= s.len(),
        forall|j: int| e <= j < s.len() ==> is_space(s[j]),
        e > 0 ==> !is_space(s[e - 1]),
    ensures
        trim_end(s) =~= s.subrange(0, e),
    decreases s.len() - e,
{
    if e == s.len() {
        if s.len() > 0 {
            assert(!is_space(s.last()));
        }
        assert(s.subrange(0, s.len() as int) =~= s);
    } else {
        assert(is_space(s.last()));
        let t = s.drop_last();
        lemma_trim_end_skip(t, e);
        assert(t.subrange(0, e) =~= s.subrange(0, e));
    }
}

/// `s` with surrounding whitespace removed.
pub fn trim(s: &str) -> (r: &str)
    ensures
        r@ == spec_trim(s@),
{
    let len = s.unicode_len();
    let mut b: usize = 0;
    while b < len && is_space_exec(s.get_char(b))
        invariant
            0 <= b <= len,
            len == s@.len(),
            forall|j: int| 0 <= j < b ==> is_space(s@[j]),
        decreases len - b,
    {
        b = b + 1;
    }
    let mut e: usize = len;
    while e > b && is_space_exec(s.get_char(e - 1))
        invariant
            b <= e <= len,
            len == s@.len(),
            forall|j: int| 0 <= j < b ==> is_space(s@[j]),
            forall|j: int| e <= j < len ==> is_space(s@[j]),
        decreases e,
    {
        e = e - 1;
    }
    let r = s.substring_char(b, e);
    proof {
        lemma_trim_start_skip(s@, b as int);
        let t = trim_start(s@);
        assert forall|j: int| e - b <= j < t.len() implies is_space(t[j]) by {
            assert(t[j] == s@[j + b]);
        }
        if e > b {
            assert(t[e - b - 1] == s@[e - 1]);
        }
        lemma_trim_end_skip(t, e - b);
        assert(t.subrange(0, e - b) =~= s@.subrange(b as int, e as int));
    }
    r
}

/// The non-empty segments of `s` between `/` separators, in order.
pub open spec fn split_slash(s: Seq<char>) -> Seq<Seq<char>>
    decreases s.len(),
{
    if s.len() == 0 {
        Seq::empty()
    } else if s[0] == '/' {
        split_slash(s.subrange(1, s.len() as int))
    } else {
        let f = find_char(s, '/');
        if 1 <= f < s.len() {
            seq![s.subrange(0, f)] + split_slash(s.subrange(f + 1, s.len() as int))
        } else {
            seq![s]
        }
    }
}

proof fn lemma_split_slash_skip(s: Seq<char>, pos: int)
    requires
        0 <= pos < s.len(),
        s[pos] == '/',
    ensures
        split_slash(s.subrange(pos, s.len() as int)) == split_slash(
            s.subrange(pos + 1, s.len() as int),
        ),
{
    let t = s.subrange(pos, s.len() as int);
    assert(t[0] == '/');
    assert(find_char(t, '/') == 0);
    assert(t.subrange(1, t.len() as int) =~= s.subrange(pos + 1, s.len() as int));
}

proof fn lemma_split_slash_segment(s: Seq<char>, pos: int, e: int)
    requires
        0 <= pos < e <= s.len(),
        forall|j: int| pos <= j < e ==> s[j] != '/',
        e < s.len() ==> s[e] == '/',
    ensures
        e < s.len() ==> split_slash(s.subrange(pos, s.len() as int)) == seq![
            s.subrange(pos, e),
        ] + split_slash(s.subrange(e + 1, s.len() as int)),
        e == s.len() ==> split_slash(s.subrange(pos, s.len() as int)) == seq![s.subrange(pos, e)],
{
    let t = s.subrange(pos, s.len() as int);
    lemma_find_char(t, '/');
    let f = find_char(t, '/');
    if e < s.len() {
        assert(t[e - pos] == '/');
        assert(f != -1);
        assert(f == e - pos) by {
            if f < e - pos {
                assert(s[f + pos] != '/');
            }
            if f > e - pos {
                assert(t[e - pos] != '/');
            }
        }
        assert(t.subrange(0, f) =~= s.subrange(pos, e));
        assert(t.subrange(f + 1, t.len() as int) =~= s.subrange(e + 1, s.len() as int));
    } else {
        assert(f == -1) by {
            if f != -1 {
                assert(s[f + pos] != '/');
            }
        }
        assert(t =~= s.subrange(pos, e));
    }
}

/// Splits `s` at `/` separators, dropping empty segments.
pub fn split_slash_exec(s: &str) -> (r: Vec<String>)
    ensures
        r@.map_values(|t: String| t@) == split_slash(s@),
{
    let len = s.unicode_len();
    let mut out: Vec<String> = Vec::new();
    proof {
        assert(s@.subrange(0, len as int) =~= s@);
        assert(out@.map_values(|t: String| t@) =~= Seq::<Seq<char>>::empty());
    }
    let mut pos: usize = 0;
    while pos < len
        invariant
            0 <= pos <= len,
            len == s@.len(),
            out@.map_values(|t: String| t@) + split_slash(s@.subrange(pos as int, len as int))
                =~= split_slash(s@),
        decreases len - pos,
    {
        if s.get_char(pos) == '/' {
            proof {
                lemma_split_slash_skip(s@, pos as int);
            }
            pos = pos + 1;
        } else {
            let mut e: usize = pos;
            while e < len && s.get_char(e) != '/'
                invariant
                    pos <= e <= len,
                    len == s@.len(),
                    forall|j: int| pos <= j < e ==> s@[j] != '/',
                decreases len - e,
            {
                e = e + 1;
            }
            let seg = s.substring_char(pos, e).to_owned();
            proof {
                lemma_split_slash_segment(s@, pos as int, e as int);
                let gnew = out@.map_values(|t: String| t@).push(seg@);
                assert(gnew =~= out@.push(seg).map_values(|t: String| t@));
            }
            out.push(seg);
            if e < len {
                proof {
                    lemma_split_slash_skip(s@, e as int);
                }
                pos = e + 1;
            } else {
                pos = e;
            }
        }
    }
    proof {
        assert(split_slash(s@.subrange(len as int, len as int)) =~= Seq::<Seq<char>>::empty());
        assert(out@.map_values(|t: String| t@) + Seq::<Seq<char>>::empty() =~= out@.map_values(
            |t: String| t@,
        ));
    }
    out
}

/// Executable mirror of `is_space`.
pub fn is_space_exec(c: char) -> (r: bool)
    ensures
        r == is_space(c),
{
    c == ' ' || c == '\t' || c == '\r' || c == '\n'
}

} // verus!
