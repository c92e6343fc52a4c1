//! Character-sequence utilities.
//!
//! The engine represents every piece of language-level text as a
//! `Vec<char>`, whose view is a `Seq<char>`. This module holds the small
//! verified building blocks the rest of the engine assembles text with.

use vstd::prelude::*;

verus! {

/// Turn a string slice into the engine's character-vector representation.
pub fn chars_of(s: &str) -> (r: Vec<char>)
    ensures
        r@ == s@,
{
    let n = s.unicode_len();
    let mut r: Vec<char> = Vec::new();
    let mut i: usize = 0;
    while i < n
        invariant
            n == s@.len(),
            i <= n,
            r@ == s@.subrange(0, i as int),
        decreases n - i,
    {
        let c = s.get_char(i);
        r.push(c);
        i = i + 1;
        proof {
            assert(r@ =~= s@.subrange(0, i as int));
        }
    }
    proof {
        assert(r@ =~= s@);
    }
    r
}

/// Whether two character vectors hold the same text.
pub fn chars_eq(a: &Vec<char>, b: &Vec<char>) -> (r: bool)
    ensures
        r == (a@ == b@),
{
    if a.len() != b.len() {
        proof {
            assert(a@ != b@);
        }
        return false;
    }
    let mut i: usize = 0;
    while i < a.len()
        invariant
            a@.len() == b@.len(),
            i <= a@.len(),
            forall|j: int| 0 <= j < i ==> a@[j] == b@[j],
        decreases a@.len() - i,
    {
        if a[i] != b[i] {
            return false;
        }
        i = i + 1;
    }
    proof {
        assert(a@ =~= b@);
    }
    true
}

/// Append all characters of `src` to `dst`.
pub fn push_chars(dst: &mut Vec<char>, src: &Vec<char>)
    ensures
        final(dst)@ == old(dst)@ + src@,
{
    let mut i: usize = 0;
    while i < src.len()
        invariant
            i <= src@.len(),
            dst@ == old(dst)@ + src@.subrange(0, i as int),
        decreases src@.len() - i,
    {
        dst.push(src[i]);
        i = i + 1;
        proof {
            assert(dst@ =~= old(dst)@ + src@.subrange(0, i as int));
        }
    }
    proof {
        assert(dst@ =~= old(dst)@ + src@);
    }
}

// ---------------------------------------------------------------------
// Trimming
// ---------------------------------------------------------------------

/// Whitespace test.
pub fn is_space_char(c: char) -> (r: bool)
    ensures
        r == crate::value::is_space(c),
{
    c == ' ' || c == '\t' || c == '\n' || c == '\r'
}

/// Strip whitespace from both ends.
pub fn trim_chars(s: &Vec<char>) -> (r: Vec<char>)
    ensures
        r@ == crate::value::trimmed(s@),
{
    let n = s.len();
    let mut lo: usize = 0;
    while lo < n && is_space_char(s[lo])
        invariant
            n == s@.len(),
            lo <= n,
            forall|j: int| 0 <= j < lo ==> crate::value::is_space(#[trigger] s@[j]),
        decreases n - lo,
    {
        lo = lo + 1;
    }
    let mut hi: usize = n;
    while hi > lo && is_space_char(s[hi - 1])
        invariant
            n == s@.len(),
            lo <= hi <= n,
            forall|j: int| hi <= j < n ==> crate::value::is_space(#[trigger] s@[j]),
        decreases hi,
    {
        hi = hi - 1;
    }
    proof {
        crate::value::lemma_trim_front_at(s@, lo as int);
        let t = s@.subrange(lo as int, n as int);
        crate::value::lemma_trim_back_at(t, hi - lo);
        assert(t.subrange(0, hi - lo) =~= s@.subrange(lo as int, hi as int));
    }
    let mut r: Vec<char> = Vec::new();
    let mut i: usize = lo;
    while i < hi
        invariant
            lo <= i <= hi <= s@.len(),
            r@ == s@.subrange(lo as int, i as int),
        decreases hi - i,
    {
        r.push(s[i]);
        i = i + 1;
        proof {
            assert(r@ =~= s@.subrange(lo as int, i as int));
        }
    }
    r
}

// ---------------------------------------------------------------------
// Module-path lists
// ---------------------------------------------------------------------

/// Separator of module search path lists: both the Unix and the
/// Windows convention are accepted.
pub open spec fn is_sep(c: char) -> bool {
    c == ':' || c == ';'
}

/// Length of the first segment: the run of characters before the first
/// separator, or the whole text if there is none.
pub open spec fn seg_len(s: Seq<char>) -> int
    decreases s.len(),
{
    if s.len() == 0 {
        0
    } else if is_sep(s[0]) {
        0
    } else {
        1 + seg_len(s.subrange(1, s.len() as int))
    }
}

proof fn lemma_seg_len_bounds(s: Seq<char>)
    ensures
        0 <= seg_len(s) <= s.len(),
    decreases s.len(),
{
    if s.len() > 0 && !is_sep(s[0]) {
        lemma_seg_len_bounds(s.subrange(1, s.len() as int));
    }
}

proof fn lemma_seg_len_at(s: Seq<char>, k: int)
    requires
        0 <= k <= s.len(),
        forall|j: int| 0 <= j < k ==> !is_sep(#[trigger] s[j]),
        k == s.len() || is_sep(s[k]),
    ensures
        seg_len(s) == k,
    decreases k,
{
    if k > 0 {
        let t = s.subrange(1, s.len() as int);
        lemma_seg_len_at(t, k - 1);
    }
}

/// A segment survives if it is nonempty after trimming.
pub open spec fn keep_segment(seg: Seq<char>) -> Seq<Seq<char>> {
    if crate::value::trimmed(seg).len() > 0 {
        seq![crate::value::trimmed(seg)]
    } else {
        Seq::empty()
    }
}

/// The surviving trimmed segments of a separator-delimited path list.
pub open spec fn split_paths(s: Seq<char>) -> Seq<Seq<char>>
    decreases s.len(),
    via split_paths_dec
{
    let k = seg_len(s);
    if k == s.len() {
        keep_segment(s)
    } else {
        keep_segment(s.subrange(0, k)) + split_paths(s.subrange(k + 1, s.len() as int))
    }
}

#[via_fn]
proof fn split_paths_dec(s: Seq<char>) {
    lemma_seg_len_bounds(s);
}

/// Split a path-list specification into its surviving segments.
pub fn split_path_list(s: &Vec<char>) -> (r: Vec<Vec<char>>)
    ensures
        r.deep_view() == split_paths(s@),
{
    let n = s.len();
    let mut out: Vec<Vec<char>> = Vec::new();
    let mut pos: usize = 0;
    proof {
        assert(s@.subrange(0, n as int) =~= s@);
        assert(out.deep_view() =~= Seq::<Seq<char>>::empty());
    }
    loop
        invariant
            n == s@.len(),
            pos <= n,
            split_paths(s@) == out.deep_view() + split_paths(s@.subrange(pos as int, n as int)),
        decreases n - pos + 1,
    {
        let ghost rest = s@.subrange(pos as int, n as int);
        let mut j: usize = pos;
        while j < n && !(s[j] == ':' || s[j] == ';')
            invariant
                n == s@.len(),
                pos <= j <= n,
                forall|m: int| pos <= m < j ==> !is_sep(#[trigger] s@[m]),
            decreases n - j,
        {
            j = j + 1;
        }
        proof {
            assert(forall|m: int|
                0 <= m < j - pos ==> !is_sep(#[trigger] rest[m]));
            lemma_seg_len_at(rest, j - pos);
        }
        let mut seg: Vec<char> = Vec::new();
        let mut i: usize = pos;
        while i < j
            invariant
                pos <= i <= j <= n,
                n == s@.len(),
                seg@ == s@.subrange(pos as int, i as int),
            decreases j - i,
        {
            seg.push(s[i]);
            i = i + 1;
            proof {
                assert(seg@ =~= s@.subrange(pos as int, i as int));
            }
        }
        proof {
            assert(seg@ =~= rest.subrange(0, j - pos));
        }
        let t = trim_chars(&seg);
        let ghost out0 = out.deep_view();
        if t.len() > 0 {
            out.push(t);
            proof {
                assert(out.deep_view() =~~= out0 + keep_segment(seg@));
            }
        } else {
            proof {
                assert(out.deep_view() =~~= out0 + keep_segment(seg@));
            }
        }
        if j == n {
            proof {
                assert(rest.subrange(0, j - pos) =~= rest);
                assert(split_paths(rest) == keep_segment(seg@));
                assert(out.deep_view() =~~= out0 + split_paths(rest));
                assert(split_paths(s@) =~~= out.deep_view() + split_paths(
                    s@.subrange(n as int, n as int),
                )) by {
                    assert(s@.subrange(n as int, n as int).len() == 0);
                    assert(seg_len(s@.subrange(n as int, n as int)) == 0);
                    assert(split_paths(s@.subrange(n as int, n as int)) =~= Seq::<
                        Seq<char>,
                    >::empty());
                };
            }
            return out;
        }
        proof {
            assert(split_paths(rest) == keep_segment(rest.subrange(0, j - pos)) + split_paths(
                rest.subrange(j - pos + 1, rest.len() as int),
            ));
            assert(rest.subrange(j - pos + 1, rest.len() as int) =~= s@.subrange(
                j + 1,
                n as int,
            ));
        }
        pos = j + 1;
    }
}

// ---------------------------------------------------------------------
// Escape substitution and line shaping
// ---------------------------------------------------------------------

/// The two-character sequences `\n` and `\t` become actual newline and
/// tab characters.
pub open spec fn unescaped(s: Seq<char>) -> Seq<char>
    decreases s.len(),
{
    if s.len() == 0 {
        Seq::empty()
    } else if s.len() >= 2 && s[0] == '\\' && s[1] == 'n' {
        seq!['\n'] + unescaped(s.subrange(2, s.len() as int))
    } else if s.len() >= 2 && s[0] == '\\' && s[1] == 't' {
        seq!['\t'] + unescaped(s.subrange(2, s.len() as int))
    } else {
        seq![s[0]] + unescaped(s.subrange(1, s.len() as int))
    }
}

/// Apply the escape substitution.
pub fn unescape(s: &Vec<char>) -> (r: Vec<char>)
    ensures
        r@ == unescaped(s@),
{
    let n = s.len();
    let mut out: Vec<char> = Vec::new();
    let mut i: usize = 0;
    proof {
        assert(s@.subrange(0, n as int) =~= s@);
    }
    while i < n
        invariant
            n == s@.len(),
            i <= n,
            unescaped(s@) == out@ + unescaped(s@.subrange(i as int, n as int)),
        decreases n - i,
    {
        let ghost rest = s@.subrange(i as int, n as int);
        let ghost out0 = out@;
        if i + 1 < n && s[i] == '\\' && s[i + 1] == 'n' {
            out.push('\n');
            i = i + 2;
            proof {
                assert(rest.subrange(2, rest.len() as int) =~= s@.subrange(i as int, n as int));
                assert(out@ =~= out0 + seq!['\n']);
            }
        } else if i + 1 < n && s[i] == '\\' && s[i + 1] == 't' {
            out.push('\t');
            i = i + 2;
            proof {
                assert(rest.subrange(2, rest.len() as int) =~= s@.subrange(i as int, n as int));
                assert(out@ =~= out0 + seq!['\t']);
            }
        } else {
            out.push(s[i]);
            i = i + 1;
            proof {
                assert(rest.subrange(1, rest.len() as int) =~= s@.subrange(i as int, n as int));
                assert(out@ =~= out0 + seq![rest[0]]);
            }
        }
    }
    proof {
        assert(unescaped(s@.subrange(n as int, n as int)) =~= Seq::<char>::empty());
        assert(out@ =~= out@ + unescaped(s@.subrange(n as int, n as int)));
    }
    out
}

/// Trailing carriage returns and newlines stripped, as a line read
/// does.
pub open spec fn strip_crlf(s: Seq<char>) -> Seq<char>
    decreases s.len(),
{
    if s.len() > 0 && (s.last() == '\n' || s.last() == '\r') {
        strip_crlf(s.drop_last())
    } else {
        s
    }
}

/// Strip trailing carriage returns and newlines in place.
pub fn chomp_crlf(s: &mut Vec<char>)
    ensures
        final(s)@ == strip_crlf(old(s)@),
{
    loop
        invariant
            strip_crlf(s@) == strip_crlf(old(s)@),
        decreases s@.len(),
    {
        if s.len() == 0 {
            return ;
        }
        let c = s[s.len() - 1];
        if c == '\n' || c == '\r' {
            s.pop();
        } else {
            return ;
        }
    }
}

/// One trailing line terminator stripped, as the shell builtin does to
/// captured output: a final newline goes, and a carriage return before
/// it goes too.
pub open spec fn chomp_line(s: Seq<char>) -> Seq<char> {
    if s.len() > 0 && s.last() == '\n' {
        let t = s.drop_last();
        if t.len() > 0 && t.last() == '\r' {
            t.drop_last()
        } else {
            t
        }
    } else {
        s
    }
}

/// Strip one trailing line terminator in place.
pub fn chomp_line_end(s: &mut Vec<char>)
    ensures
        final(s)@ == chomp_line(old(s)@),
{
    if s.len() > 0 {
        let c = s[s.len() - 1];
        if c == '\n' {
            s.pop();
            if s.len() > 0 {
                let d = s[s.len() - 1];
                if d == '\r' {
                    s.pop();
                }
            }
        }
    }
}

// ---------------------------------------------------------------------
// Paths
// ---------------------------------------------------------------------

/// Absolute paths begin with a separator.
pub open spec fn is_absolute(s: Seq<char>) -> bool {
    s.len() > 0 && s[0] == '/'
}

/// A base directory joined with a relative path.
pub open spec fn joined(base: Seq<char>, path: Seq<char>) -> Seq<char> {
    base + seq!['/'] + path
}

/// Join a base directory with a relative path.
pub fn join_path(base: &Vec<char>, path: &Vec<char>) -> (r: Vec<char>)
    ensures
        r@ == joined(base@, path@),
{
    let mut r = copy_out(base);
    r.push('/');
    push_chars(&mut r, path);
    proof {
        assert(r@ =~= joined(base@, path@));
    }
    r
}

/// The directory part of a path: everything before the last separator,
/// or nothing for a bare file name.
pub open spec fn parent_of(s: Seq<char>) -> Option<Seq<char>>
    decreases s.len(),
{
    if s.len() == 0 {
        None
    } else if s.last() == '/' {
        Some(s.drop_last())
    } else {
        parent_of(s.drop_last())
    }
}

/// Compute the directory part of a path.
pub fn parent_dir(s: &Vec<char>) -> (r: Option<Vec<char>>)
    ensures
        match r {
            Some(d) => parent_of(s@) == Some(d@),
            None => parent_of(s@) is None,
        },
{
    let mut k: usize = s.len();
    proof {
        assert(s@.subrange(0, s@.len() as int) =~= s@);
    }
    while k > 0 && s[k - 1] != '/'
        invariant
            k <= s@.len(),
            parent_of(s@) == parent_of(s@.subrange(0, k as int)),
        decreases k,
    {
        proof {
            assert(s@.subrange(0, k as int).drop_last() =~= s@.subrange(0, k - 1));
        }
        k = k - 1;
    }
    if k == 0 {
        proof {
            assert(s@.subrange(0, 0).len() == 0);
        }
        return None;
    }
    let mut d: Vec<char> = Vec::new();
    let mut i: usize = 0;
    while i < k - 1
        invariant
            0 < k <= s@.len(),
            i <= k - 1,
            d@ == s@.subrange(0, i as int),
        decreases k - i,
    {
        d.push(s[i]);
        i = i + 1;
        proof {
            assert(d@ =~= s@.subrange(0, i as int));
        }
    }
    proof {
        let t = s@.subrange(0, k as int);
        assert(t.last() == s@[k - 1]);
        assert(t.drop_last() =~= s@.subrange(0, k - 1));
        assert(parent_of(s@) == Some(s@.subrange(0, k - 1)));
    }
    Some(d)
}

/// Whether a character occurs in the text.
pub fn contains_char(v: &Vec<char>, c: char) -> (r: bool)
    ensures
        r == v@.contains(c),
{
    let mut i: usize = 0;
    while i < v.len()
        invariant
            i <= v@.len(),
            forall|j: int| 0 <= j < i ==> v@[j] != c,
        decreases v@.len() - i,
    {
        if v[i] == c {
            return true;
        }
        i = i + 1;
    }
    proof {
        assert(forall|j: int| 0 <= j < v@.len() ==> v@[j] != c);
    }
    false
}

/// The deep view of a vector of character vectors is its element-wise
/// text.
pub proof fn lemma_deep_chars(v: Vec<Vec<char>>)
    ensures
        v.deep_view().len() == v@.len(),
        forall|i: int| 0 <= i < v@.len() ==> #[trigger] v.deep_view()[i] == v@[i]@,
{
    assert forall|i: int| 0 <= i < v@.len() implies #[trigger] v.deep_view()[i] == v@[i]@ by {
        assert(v.deep_view()[i] =~= v@[i]@);
    }
}

/// Copy a character vector.
fn copy_out(s: &Vec<char>) -> (r: Vec<char>)
    ensures
        r@ == s@,
{
    let mut t: Vec<char> = Vec::new();
    push_chars(&mut t, s);
    proof {
        assert(t@ =~= s@);
    }
    t
}

} // verus!
