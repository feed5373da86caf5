//! Character-level text handling: whitespace trimming, line splitting and
//! joining, prefixes, as `str::trim`, `str::lines` and `[&str]::join` define them.
use vstd::prelude::*;
use vstd::utf8::{encode_scalar, encode_utf8};

verus! {

/// Unicode `White_Space`, the set that `char::is_whitespace` tests.
pub open spec fn is_ws(c: char) -> bool {
    let u = c as u32;
    ||| 9 <= u <= 13
    ||| u == 32
    ||| u == 0x85
    ||| u == 0xa0
    ||| u == 0x1680
    ||| 0x2000 <= u <= 0x200a
    ||| u == 0x2028
    ||| u == 0x2029
    ||| u == 0x202f
    ||| u == 0x205f
    ||| u == 0x3000
}

/// The text with its leading whitespace removed.
pub open spec fn trim_start(s: Seq<char>) -> Seq<char>
    decreases s.len(),
{
    if s.len() > 0 && is_ws(s[0]) {
        trim_start(s.drop_first())
    } else {
        s
    }
}

/// The text with its trailing whitespace removed.
pub open spec fn trim_end(s: Seq<char>) -> Seq<char>
    decreases s.len(),
{
    if s.len() > 0 && is_ws(s.last()) {
        trim_end(s.drop_last())
    } else {
        s
    }
}

/// `str::trim`: both leading and trailing whitespace removed.
pub open spec fn trim(s: Seq<char>) -> Seq<char> {
    trim_end(trim_start(s))
}

pub open spec fn starts_with(s: Seq<char>, p: Seq<char>) -> bool {
    p.len() <= s.len() && s.subrange(0, p.len() as int) == p
}

pub open spec fn has_char(s: Seq<char>, c: char) -> bool {
    exists|i: int| 0 <= i < s.len() && s[i] == c
}

/// A line as `str::lines` yields it: one `'\r'` right before the line feed is dropped.
pub open spec fn strip_cr(s: Seq<char>) -> Seq<char> {
    if s.len() > 0 && s.last() == '\r' {
        s.drop_last()
    } else {
        s
    }
}

/// Index of the first line feed at or after `from`, or the length if there is none.
pub open spec fn next_lf(s: Seq<char>, from: int) -> int
    decreases s.len() - from,
{
    if from >= s.len() {
        s.len() as int
    } else if s[from] == '\n' {
        from
    } else {
        next_lf(s, from + 1)
    }
}

/// `str::lines`: the text split at each `'\n'` (and `"\r\n"`); a final
/// line ending adds no empty line.
pub open spec fn split_lines(s: Seq<char>) -> Seq<Seq<char>>
    decreases s.len(),
{
    if s.len() == 0 {
        seq![]
    } else {
        let i = next_lf(s, 0);
        if i >= s.len() {
            seq![s]
        } else {
            proof {
                lemma_next_lf_bounds(s, 0);
            }
            seq![strip_cr(s.subrange(0, i))] + split_lines(s.subrange(i + 1, s.len() as int))
        }
    }
}

/// The text split at each `'\n'`, every line kept as it is (a `'\r'` before
/// the line feed included); a final line feed adds no empty line. This is
/// `str::split_terminator('\n')`.
pub open spec fn raw_lines(s: Seq<char>) -> Seq<Seq<char>>
    decreases s.len(),
{
    if s.len() == 0 {
        seq![]
    } else {
        let i = next_lf(s, 0);
        if i >= s.len() {
            seq![s]
        } else {
            proof {
                lemma_next_lf_bounds(s, 0);
            }
            seq![s.subrange(0, i)] + raw_lines(s.subrange(i + 1, s.len() as int))
        }
    }
}

/// `[..].join("\n")`.
pub open spec fn join_lines(lines: Seq<Seq<char>>) -> Seq<char>
    decreases lines.len(),
{
    if lines.len() == 0 {
        seq![]
    } else if lines.len() == 1 {
        lines[0]
    } else {
        lines[0] + seq!['\n'] + join_lines(lines.drop_first())
    }
}

pub proof fn lemma_next_lf_bounds(s: Seq<char>, from: int)
    requires
        0 <= from,
    ensures
        from <= next_lf(s, from) || from > s.len(),
        next_lf(s, from) <= s.len(),
        next_lf(s, from) < s.len() ==> s[next_lf(s, from)] == '\n',
        forall|k: int| from <= k < next_lf(s, from) ==> s[k] != '\n',
    decreases s.len() - from,
{
    if from < s.len() && s[from] != '\n' {
        lemma_next_lf_bounds(s, from + 1);
    }
}

/// Leading characters that are all whitespace can be dropped before trimming the start.
pub proof fn lemma_trim_start_skip(s: Seq<char>, i: int)
    requires
        0 <= i <= s.len(),
        forall|k: int| 0 <= k < i ==> is_ws(#[trigger] s[k]),
    ensures
        trim_start(s) == trim_start(s.subrange(i, s.len() as int)),
    decreases i,
{
    if i > 0 {
        assert(s.drop_first() =~= s.subrange(1, s.len() as int));
        let t = s.drop_first();
        assert forall|k: int| 0 <= k < i - 1 implies is_ws(#[trigger] t[k]) by {
            assert(t[k] == s[k + 1]);
        }
        lemma_trim_start_skip(t, i - 1);
        assert(t.subrange(i - 1, t.len() as int) =~= s.subrange(i, s.len() as int));
    } else {
        assert(s.subrange(0, s.len() as int) =~= s);
    }
}

/// Trailing characters that are all whitespace can be dropped before trimming the end.
pub proof fn lemma_trim_end_skip(s: Seq<char>, j: int)
    requires
        0 <= j <= s.len(),
        forall|k: int| j <= k < s.len() ==> is_ws(#[trigger] s[k]),
    ensures
        trim_end(s) == trim_end(s.subrange(0, j)),
    decreases s.len() - j,
{
    if j < s.len() {
        let t = s.drop_last();
        assert forall|k: int| j <= k < t.len() implies is_ws(#[trigger] t[k]) by {
            assert(t[k] == s[k]);
        }
        lemma_trim_end_skip(t, j);
        assert(t.subrange(0, j) =~= s.subrange(0, j));
    } else {
        assert(s.subrange(0, j) =~= s);
    }
}

pub open spec fn all_ws(s: Seq<char>) -> bool {
    forall|k: int| 0 <= k < s.len() ==> is_ws(#[trigger] s[k])
}

pub proof fn lemma_trim_start_all_ws(s: Seq<char>)
    requires
        all_ws(s),
    ensures
        trim_start(s) == Seq::<char>::empty(),
{
    lemma_trim_start_skip(s, s.len() as int);
    assert(s.subrange(s.len() as int, s.len() as int) =~= Seq::<char>::empty());
}

pub proof fn lemma_trim_end_all_ws(s: Seq<char>)
    requires
        all_ws(s),
    ensures
        trim_end(s) == Seq::<char>::empty(),
{
    lemma_trim_end_skip(s, 0);
    assert(s.subrange(0, 0) =~= Seq::<char>::empty());
}

pub proof fn lemma_trim_start_prepend_ws(p: Seq<char>, x: Seq<char>)
    requires
        all_ws(p),
    ensures
        trim_start(p + x) == trim_start(x),
{
    let s = p + x;
    assert forall|k: int| 0 <= k < p.len() implies is_ws(#[trigger] s[k]) by {
        assert(s[k] == p[k]);
    }
    lemma_trim_start_skip(s, p.len() as int);
    assert(s.subrange(p.len() as int, s.len() as int) =~= x);
}

pub proof fn lemma_trim_end_append_ws(x: Seq<char>, q: Seq<char>)
    requires
        all_ws(q),
    ensures
        trim_end(x + q) == trim_end(x),
{
    let s = x + q;
    assert forall|k: int| x.len() <= k < s.len() implies is_ws(#[trigger] s[k]) by {
        assert(s[k] == q[k - x.len()]);
    }
    lemma_trim_end_skip(s, x.len() as int);
    assert(s.subrange(0, x.len() as int) =~= x);
}

/// Trimming the end of a text that has a non-whitespace character leaves what precedes it.
pub proof fn lemma_trim_end_prepend(p: Seq<char>, x: Seq<char>)
    requires
        !all_ws(x),
    ensures
        trim_end(p + x) == p + trim_end(x),
    decreases x.len(),
{
    let s = p + x;
    assert(s.len() > 0);
    assert(s.last() == x.last());
    if is_ws(x.last()) {
        assert(s.drop_last() =~= p + x.drop_last());
        let k = choose|k: int| 0 <= k < x.len() && !is_ws(#[trigger] x[k]);
        assert(k < x.len() - 1);
        assert(x.drop_last()[k] == x[k]);
        lemma_trim_end_prepend(p, x.drop_last());
    }
}

/// Trimming the start of a text that has a non-whitespace character leaves what follows it.
pub proof fn lemma_trim_start_append(x: Seq<char>, q: Seq<char>)
    requires
        !all_ws(x),
    ensures
        trim_start(x + q) == trim_start(x) + q,
    decreases x.len(),
{
    let s = x + q;
    assert(s[0] == x[0]);
    if is_ws(x[0]) {
        assert(s.drop_first() =~= x.drop_first() + q);
        let k = choose|k: int| 0 <= k < x.len() && !is_ws(#[trigger] x[k]);
        assert(k > 0);
        assert(x.drop_first()[k - 1] == x[k]);
        lemma_trim_start_append(x.drop_first(), q);
    }
}

pub proof fn lemma_trim_end_shape(x: Seq<char>)
    ensures
        trim_end(x).len() <= x.len(),
        trim_end(x).len() > 0 ==> !is_ws(trim_end(x).last()),
        trim_end(x).len() > 0 ==> trim_end(x)[0] == x[0],
        trim_end(x) == x.subrange(0, trim_end(x).len() as int),
    decreases x.len(),
{
    if x.len() > 0 && is_ws(x.last()) {
        lemma_trim_end_shape(x.drop_last());
        let t = trim_end(x.drop_last());
        assert(x.drop_last().subrange(0, t.len() as int) =~= x.subrange(0, t.len() as int));
    } else {
        assert(x.subrange(0, x.len() as int) =~= x);
    }
}

pub proof fn lemma_trim_start_shape(x: Seq<char>)
    ensures
        trim_start(x).len() <= x.len(),
        trim_start(x).len() > 0 ==> !is_ws(trim_start(x)[0]),
        x.len() > 0 && is_ws(x[0]) ==> trim_start(x).len() < x.len(),
        trim_start(x) == x.subrange(x.len() - trim_start(x).len(), x.len() as int),
    decreases x.len(),
{
    if x.len() > 0 && is_ws(x[0]) {
        lemma_trim_start_shape(x.drop_first());
        let t = trim_start(x.drop_first());
        assert(x.drop_first().subrange(x.len() - 1 - t.len(), x.len() - 1) =~= x.subrange(
            x.len() - t.len(),
            x.len() as int,
        ));
    } else {
        assert(x.subrange(0, x.len() as int) =~= x);
    }
}

pub proof fn lemma_trim_end_idem(x: Seq<char>)
    ensures
        trim_end(trim_end(x)) == trim_end(x),
{
    lemma_trim_end_shape(x);
}

/// Trimming the two ends is independent of the order.
pub proof fn lemma_trim_commute(x: Seq<char>)
    ensures
        trim_start(trim_end(x)) == trim_end(trim_start(x)),
    decreases x.len(),
{
    if x.len() == 0 {
    } else if is_ws(x[0]) {
        let x1 = x.drop_first();
        lemma_trim_commute(x1);
        assert(x =~= seq![x[0]] + x1);
        if all_ws(x1) {
            assert(all_ws(x));
            lemma_trim_end_all_ws(x);
            lemma_trim_start_all_ws(x);
            lemma_trim_end_all_ws(Seq::<char>::empty());
            lemma_trim_start_all_ws(Seq::<char>::empty());
        } else {
            lemma_trim_end_prepend(seq![x[0]], x1);
            lemma_trim_start_prepend_ws(seq![x[0]], trim_end(x1));
        }
    } else {
        lemma_trim_end_shape(x);
        assert(x.subrange(0, 1) =~= seq![x[0]]);
        if x.len() == 1 || !all_ws(x.drop_first()) {
            if x.len() > 1 {
                lemma_trim_end_prepend(seq![x[0]], x.drop_first());
                assert(x =~= seq![x[0]] + x.drop_first());
            }
            assert(trim_end(x).len() > 0);
        } else {
            lemma_trim_end_append_ws(seq![x[0]], x.drop_first());
            assert(x =~= seq![x[0]] + x.drop_first());
            assert(trim_end(seq![x[0]]) == seq![x[0]]);
        }
        assert(trim_end(x)[0] == x[0]);
    }
}

/// The text as a vector of its characters.
pub fn chars_of(s: &str) -> (v: Vec<char>)
    ensures
        v@ == s@,
{
    let n = s.unicode_len();
    let mut v: Vec<char> = Vec::new();
    let mut i: usize = 0;
    while i < n
        invariant
            n == s@.len(),
            i <= n,
            v@ == s@.subrange(0, i as int),
        decreases n - i,
    {
        let c = s.get_char(i);
        v.push(c);
        i = i + 1;
        assert(v@ =~= s@.subrange(0, i as int));
    }
    assert(v@ =~= s@);
    v
}

/// `String::push`.
#[verifier::external_body]
pub fn push_char(s: &mut String, c: char)
    ensures
        final(s)@ == old(s)@.push(c),
{
    s.push(c);
}

/// A `String` holding the given characters.
pub fn string_of(v: &Vec<char>) -> (s: String)
    ensures
        s@ == v@,
{
    let mut s = String::new();
    let mut i: usize = 0;
    while i < v.len()
        invariant
            i <= v.len(),
            s@ == v@.subrange(0, i as int),
        decreases v.len() - i,
    {
        push_char(&mut s, v[i]);
        i = i + 1;
        assert(s@ =~= v@.subrange(0, i as int));
    }
    assert(s@ =~= v@);
    s
}

pub fn is_ws_char(c: char) -> (b: bool)
    ensures
        b == is_ws(c),
{
    let u = c as u32;
    (9 <= u && u <= 13) || u == 32 || u == 0x85 || u == 0xa0 || u == 0x1680 || (0x2000 <= u && u
        <= 0x200a) || u == 0x2028 || u == 0x2029 || u == 0x202f || u == 0x205f || u == 0x3000
}

/// `str::trim` on a character vector.
pub fn trim_chars(s: &Vec<char>) -> (r: Vec<char>)
    ensures
        r@ == trim(s@),
{
    let n = s.len();
    let mut i: usize = 0;
    while i < n && is_ws_char(s[i])
        invariant
            n == s.len(),
            i <= n,
            forall|k: int| 0 <= k < i ==> is_ws(#[trigger] s@[k]),
        decreases n - i,
    {
        i = i + 1;
    }
    let mut j: usize = n;
    while j > i && is_ws_char(s[j - 1])
        invariant
            n == s.len(),
            i <= j <= n,
            forall|k: int| j <= k < n ==> is_ws(#[trigger] s@[k]),
        decreases j - i,
    {
        j = j - 1;
    }
    proof {
        lemma_trim_start_skip(s@, i as int);
        let t = s@.subrange(i as int, n as int);
        if i < n {
            assert(!is_ws(t[0]));
        }
        assert(trim_start(t) == t);
        assert forall|k: int| j - i <= k < t.len() implies is_ws(#[trigger] t[k]) by {
            assert(t[k] == s@[k + i]);
        }
        lemma_trim_end_skip(t, j - i);
        let u = t.subrange(0, j - i);
        if j > i {
            assert(u.last() == s@[j - 1]);
        }
        assert(trim_end(u) == u);
        assert(u =~= s@.subrange(i as int, j as int));
    }
    let mut r: Vec<char> = Vec::new();
    let mut k: usize = i;
    while k < j
        invariant
            n == s.len(),
            i <= k <= j <= n,
            r@ == s@.subrange(i as int, k as int),
        decreases j - k,
    {
        r.push(s[k]);
        k = k + 1;
        assert(r@ =~= s@.subrange(i as int, k as int));
    }
    r
}

/// Whether `s` begins with `p`.
pub fn starts_with_chars(s: &Vec<char>, p: &Vec<char>) -> (b: bool)
    ensures
        b == starts_with(s@, p@),
{
    if p.len() > s.len() {
        return false;
    }
    let mut i: usize = 0;
    while i < p.len()
        invariant
            p.len() <= s.len(),
            i <= p.len(),
            forall|k: int| 0 <= k < i ==> s@[k] == p@[k],
        decreases p.len() - i,
    {
        if s[i] != p[i] {
            assert(s@.subrange(0, p.len() as int)[i as int] != p@[i as int]);
            return false;
        }
        i = i + 1;
    }
    assert(s@.subrange(0, p.len() as int) =~= p@);
    true
}

/// Whether the two character sequences are equal.
pub fn chars_eq(a: &Vec<char>, b: &Vec<char>) -> (r: bool)
    ensures
        r == (a@ == b@),
{
    if a.len() != b.len() {
        return false;
    }
    let mut i: usize = 0;
    while i < a.len()
        invariant
            a.len() == b.len(),
            i <= a.len(),
            forall|k: int| 0 <= k < i ==> a@[k] == b@[k],
        decreases a.len() - i,
    {
        if a[i] != b[i] {
            return false;
        }
        i = i + 1;
    }
    assert(a@ =~= b@);
    true
}

pub open spec fn lines_view(v: Seq<Vec<char>>) -> Seq<Seq<char>> {
    v.map_values(|l: Vec<char>| l@)
}

pub proof fn lemma_first_lf(x: Seq<char>, m: int)
    requires
        0 <= m < x.len(),
        x[m] == '\n',
        forall|k: int| 0 <= k < m ==> x[k] != '\n',
    ensures
        next_lf(x, 0) == m,
{
    lemma_next_lf_bounds(x, 0);
}

pub proof fn lemma_no_lf(x: Seq<char>)
    requires
        forall|k: int| 0 <= k < x.len() ==> x[k] != '\n',
    ensures
        next_lf(x, 0) == x.len(),
{
    lemma_next_lf_bounds(x, 0);
}

/// `str::lines` on a character vector.
pub fn lines_of(s: &Vec<char>) -> (r: Vec<Vec<char>>)
    ensures
        lines_view(r@) == split_lines(s@),
{
    let mut out: Vec<Vec<char>> = Vec::new();
    let mut cur: Vec<char> = Vec::new();
    let mut i: usize = 0;
    assert(lines_view(out@) =~= Seq::<Seq<char>>::empty());
    assert(cur@ + s@.subrange(0, s@.len() as int) =~= s@);
    while i < s.len()
        invariant
            i <= s.len(),
            forall|k: int| 0 <= k < cur@.len() ==> cur@[k] != '\n',
            lines_view(out@) + split_lines(cur@ + s@.subrange(i as int, s@.len() as int))
                == split_lines(s@),
        decreases s.len() - i,
    {
        let c = s[i];
        if c == '\n' {
            let ghost x = cur@ + s@.subrange(i as int, s@.len() as int);
            proof {
                lemma_first_lf(x, cur@.len() as int);
                assert(x.subrange(0, cur@.len() as int) =~= cur@);
                assert(x.subrange(cur@.len() + 1int, x.len() as int) =~= s@.subrange(
                    i + 1,
                    s@.len() as int,
                ));
            }
            let mut line = cur;
            if line.len() > 0 && line[line.len() - 1] == '\r' {
                line.pop();
            }
            assert(line@ == strip_cr(cur@));
            let ghost old_out = out@;
            out.push(line);
            assert(lines_view(out@) =~= lines_view(old_out).push(line@));
            cur = Vec::new();
            assert(cur@ + s@.subrange(i + 1, s@.len() as int) =~= s@.subrange(
                i + 1,
                s@.len() as int,
            ));
        } else {
            let ghost before = cur@;
            cur.push(c);
            assert(cur@ + s@.subrange(i + 1, s@.len() as int) =~= before + s@.subrange(
                i as int,
                s@.len() as int,
            ));
        }
        i = i + 1;
    }
    assert(cur@ + s@.subrange(i as int, s@.len() as int) =~= cur@);
    if cur.len() > 0 {
        proof {
            lemma_no_lf(cur@);
        }
        let ghost old_out = out@;
        let ghost c = cur@;
        out.push(cur);
        assert(lines_view(out@) =~= lines_view(old_out).push(c));
        assert(lines_view(out@) =~= lines_view(old_out) + seq![c]);
    } else {
        assert(lines_view(out@) + split_lines(cur@) =~= lines_view(out@));
    }
    out
}


/// `str::split_terminator('\n')` on a character vector: the lines kept as they are.
pub fn raw_lines_of(s: &Vec<char>) -> (r: Vec<Vec<char>>)
    ensures
        lines_view(r@) == raw_lines(s@),
{
    let mut out: Vec<Vec<char>> = Vec::new();
    let mut cur: Vec<char> = Vec::new();
    let mut i: usize = 0;
    assert(lines_view(out@) =~= Seq::<Seq<char>>::empty());
    assert(cur@ + s@.subrange(0, s@.len() as int) =~= s@);
    while i < s.len()
        invariant
            i <= s.len(),
            forall|k: int| 0 <= k < cur@.len() ==> cur@[k] != '\n',
            lines_view(out@) + raw_lines(cur@ + s@.subrange(i as int, s@.len() as int))
                == raw_lines(s@),
        decreases s.len() - i,
    {
        let c = s[i];
        if c == '\n' {
            let ghost x = cur@ + s@.subrange(i as int, s@.len() as int);
            proof {
                lemma_first_lf(x, cur@.len() as int);
                assert(x.subrange(0, cur@.len() as int) =~= cur@);
                assert(x.subrange(cur@.len() + 1int, x.len() as int) =~= s@.subrange(
                    i + 1,
                    s@.len() as int,
                ));
            }
            let line = cur;
            let ghost old_out = out@;
            out.push(line);
            assert(lines_view(out@) =~= lines_view(old_out).push(line@));
            cur = Vec::new();
            assert(cur@ + s@.subrange(i + 1, s@.len() as int) =~= s@.subrange(
                i + 1,
                s@.len() as int,
            ));
        } else {
            let ghost before = cur@;
            cur.push(c);
            assert(cur@ + s@.subrange(i + 1, s@.len() as int) =~= before + s@.subrange(
                i as int,
                s@.len() as int,
            ));
        }
        i = i + 1;
    }
    assert(cur@ + s@.subrange(i as int, s@.len() as int) =~= cur@);
    if cur.len() > 0 {
        proof {
            lemma_no_lf(cur@);
        }
        let ghost old_out = out@;
        let ghost c = cur@;
        out.push(cur);
        assert(lines_view(out@) =~= lines_view(old_out).push(c));
        assert(lines_view(out@) =~= lines_view(old_out) + seq![c]);
    } else {
        assert(lines_view(out@) + raw_lines(cur@) =~= lines_view(out@));
    }
    out
}


pub proof fn lemma_join_push(lines: Seq<Seq<char>>, x: Seq<char>)
    ensures
        join_lines(lines.push(x)) == if lines.len() == 0 {
            x
        } else {
            join_lines(lines) + seq!['\n'] + x
        },
    decreases lines.len(),
{
    if lines.len() == 0 {
        assert(lines.push(x) =~= seq![x]);
    } else if lines.len() == 1 {
        assert(lines.push(x).drop_first() =~= seq![x]);
        assert(join_lines(seq![x]) == x);
        assert(lines.push(x)[0] == lines[0]);
    } else {
        lemma_join_push(lines.drop_first(), x);
        assert(lines.push(x).drop_first() =~= lines.drop_first().push(x));
        assert(lines.push(x)[0] == lines[0]);
        assert(join_lines(lines.push(x)) =~= join_lines(lines) + seq!['\n'] + x);
    }
}

/// `'\r'` is whitespace, so a dropped final `'\r'` does not change the trim.
pub proof fn lemma_trim_strip_cr(x: Seq<char>)
    ensures
        trim(strip_cr(x)) == trim(x),
{
    if x.len() > 0 && x.last() == '\r' {
        let y = x.drop_last();
        assert(x =~= y + seq!['\r']);
        assert(all_ws(seq!['\r']));
        if all_ws(y) {
            assert(all_ws(x));
            lemma_trim_start_all_ws(x);
            lemma_trim_start_all_ws(y);
        } else {
            lemma_trim_start_append(y, seq!['\r']);
            lemma_trim_end_append_ws(trim_start(y), seq!['\r']);
        }
    }
}

/// A line appended after text that ends with a line feed (or after
/// nothing) is read back as one more line.
pub proof fn lemma_split_last_line(t: Seq<char>, v: Seq<char>)
    requires
        t.len() == 0 || t.last() == '\n',
        !has_char(v, '\n'),
    ensures
        split_lines(t + v + seq!['\n']) == split_lines(t).push(strip_cr(v)),
    decreases t.len(),
{
    let s = t + v + seq!['\n'];
    if t.len() == 0 {
        assert(s =~= v + seq!['\n']);
        assert forall|k: int| 0 <= k < v.len() implies s[k] != '\n' by {
            if v[k] == '\n' {
                assert(has_char(v, '\n'));
            }
        }
        lemma_first_lf(s, v.len() as int);
        assert(s.subrange(0, v.len() as int) =~= v);
        assert(s.subrange(v.len() + 1int, s.len() as int) =~= Seq::<char>::empty());
        assert(split_lines(Seq::<char>::empty()) =~= Seq::<Seq<char>>::empty());
        assert(split_lines(s) =~= seq![strip_cr(v)]);
        assert(split_lines(t) =~= Seq::<Seq<char>>::empty());
    } else {
        lemma_next_lf_bounds(t, 0);
        let i = next_lf(t, 0);
        if i >= t.len() {
            assert(t[t.len() - 1] != '\n');
        }
        assert(s[i] == '\n');
        assert forall|k: int| 0 <= k < i implies s[k] != '\n' by {
            assert(s[k] == t[k]);
        }
        lemma_first_lf(s, i);
        let rest = t.subrange(i + 1, t.len() as int);
        if rest.len() > 0 {
            assert(rest.last() == t.last());
        }
        lemma_split_last_line(rest, v);
        assert(s.subrange(0, i) =~= t.subrange(0, i));
        assert(s.subrange(i + 1, s.len() as int) =~= rest + v + seq!['\n']);
        assert(split_lines(s) == seq![strip_cr(t.subrange(0, i))] + split_lines(rest + v + seq!['\n']));
        assert(split_lines(t) == seq![strip_cr(t.subrange(0, i))] + split_lines(rest));
        assert(split_lines(s) =~= split_lines(t).push(strip_cr(v)));
    }
}

/// A copy of the characters.
pub fn clone_chars(v: &Vec<char>) -> (r: Vec<char>)
    ensures
        r@ == v@,
{
    let r = v.clone();
    assert(r@ =~= v@);
    r
}

/// `[..].join("\n")` on character vectors.
pub fn join_lines_vec(lines: &Vec<Vec<char>>) -> (r: Vec<char>)
    ensures
        r@ == join_lines(lines_view(lines@)),
{
    let mut r: Vec<char> = Vec::new();
    let mut i: usize = 0;
    while i < lines.len()
        invariant
            i <= lines.len(),
            r@ == join_lines(lines_view(lines@).subrange(0, i as int)),
        decreases lines.len() - i,
    {
        let ghost before = lines_view(lines@).subrange(0, i as int);
        proof {
            lemma_join_push(before, lines@[i as int]@);
            assert(lines_view(lines@).subrange(0, i + 1) =~= before.push(lines@[i as int]@));
        }
        if i > 0 {
            r.push('\n');
        }
        let line = &lines[i];
        let mut k: usize = 0;
        let ghost start = r@;
        while k < line.len()
            invariant
                k <= line.len(),
                r@ == start + line@.subrange(0, k as int),
            decreases line.len() - k,
        {
            r.push(line[k]);
            k = k + 1;
            assert(r@ =~= start + line@.subrange(0, k as int));
        }
        assert(line@.subrange(0, k as int) =~= line@);
        if i == 0 {
            assert(start =~= seq![]);
            assert(r@ =~= line@);
        } else {
            assert(r@ =~= join_lines(before) + seq!['\n'] + line@);
        }
        i = i + 1;
    }
    assert(lines_view(lines@).subrange(0, i as int) =~= lines_view(lines@));
    r
}


/// The UTF-8 encoding of two texts one after the other is the two encodings one after the other.
pub proof fn lemma_encode_utf8_concat(a: Seq<char>, b: Seq<char>)
    ensures
        encode_utf8(a + b) == encode_utf8(a) + encode_utf8(b),
    decreases a.len(),
{
    if a.len() == 0 {
        assert(a + b =~= b);
        assert(encode_utf8(a) =~= Seq::<u8>::empty());
        assert(encode_utf8(a) + encode_utf8(b) =~= encode_utf8(b));
    } else {
        assert((a + b)[0] == a[0]);
        assert((a + b).drop_first() =~= a.drop_first() + b);
        lemma_encode_utf8_concat(a.drop_first(), b);
        assert(encode_utf8(a + b) =~= encode_utf8(a) + encode_utf8(b));
    }
}

/// The number of bytes in the UTF-8 encoding of the text; `None` where it
/// does not fit in a `usize`.
pub fn utf8_len(s: &str) -> (r: Option<usize>)
    ensures
        match r {
            Some(n) => n == encode_utf8(s@).len(),
            None => encode_utf8(s@).len() > usize::MAX,
        },
{
    broadcast use vstd::utf8::group_utf8_lib;

    let v = chars_of(s);
    let mut n: usize = 0;
    let mut i: usize = 0;
    assert(v@.subrange(0, 0) =~= Seq::<char>::empty());
    assert(encode_utf8(Seq::<char>::empty()) =~= Seq::<u8>::empty());
    while i < v.len()
        invariant
            v@ == s@,
            i <= v.len(),
            n == encode_utf8(v@.subrange(0, i as int)).len(),
        decreases v.len() - i,
    {
        let u = v[i] as u32;
        let w: usize = if u <= 0x7f {
            1
        } else if u <= 0x7ff {
            2
        } else if u <= 0xffff {
            3
        } else {
            4
        };
        proof {
            let c = v@[i as int];
            assert(seq![c].drop_first() =~= Seq::<char>::empty());
            assert(seq![c][0] == c);
            assert(encode_utf8(Seq::<char>::empty()) =~= Seq::<u8>::empty());
            assert(encode_utf8(seq![c]) == encode_scalar(c as u32) + encode_utf8(
                Seq::<char>::empty(),
            ));
            assert(encode_utf8(seq![c]) =~= encode_scalar(c as u32));
            assert(u == c as u32);
            vstd::utf8::char_is_scalar(c);
            if u <= 0x7f {
                assert(encode_scalar(u).len() == 1);
            } else if u <= 0x7ff {
                assert(encode_scalar(u).len() == 2);
            } else if u <= 0xffff {
                assert(!(0xD800 <= u <= 0xDFFF));
                assert(encode_scalar(u).len() == 3);
            } else {
                assert(encode_scalar(u).len() == 4);
            }
            lemma_encode_utf8_concat(v@.subrange(0, i as int), seq![c]);
            assert(v@.subrange(0, i + 1) =~= v@.subrange(0, i as int) + seq![c]);
            assert(encode_utf8(v@.subrange(0, i + 1)).len() == n + w);
        }
        if n > usize::MAX - w {
            proof {
                lemma_encode_utf8_concat(
                    v@.subrange(0, i + 1),
                    v@.subrange(i + 1, v@.len() as int),
                );
                assert(v@ =~= v@.subrange(0, i + 1) + v@.subrange(i + 1, v@.len() as int));
            }
            return None;
        }
        n = n + w;
        i = i + 1;
    }
    assert(v@.subrange(0, i as int) =~= v@);
    Some(n)
}

} // verus!
