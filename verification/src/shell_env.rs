//! Taking environment variables from the user's login shell: the script
//! that prints them, and reading what it printed.
use vstd::prelude::*;
use vstd::utf8::{decode_utf8, encode_scalar, encode_utf8, valid_utf8};
use crate::text::{chars_of, string_of};
use crate::git_config::string_opt_view;

verus! {

/// The command that prints one variable as `NAME=value` and a NUL byte.
pub open spec fn harvest_line(name: Seq<char>) -> Seq<char> {
    "printf '%s=%s\\0' '"@ + name + "' \"$"@ + name + "\"; "@
}

pub open spec fn harvest_lines(names: Seq<Seq<char>>) -> Seq<char>
    decreases names.len(),
{
    if names.len() == 0 {
        Seq::<char>::empty()
    } else {
        harvest_lines(names.drop_last()) + harvest_line(names.last())
    }
}

/// The command that prints the marker (see `marker`), after whatever the
/// shell's start-up files print.
pub open spec fn marker_command() -> Seq<char> {
    "printf '\\0GIT_SWITCH_ENV\\0'; "@
}

/// The script: the marker, then each variable.
pub open spec fn harvest_text(names: Seq<Seq<char>>) -> Seq<char> {
    marker_command() + harvest_lines(names)
}

/// The shell script run in the login shell: it prints the marker, then each
/// variable as `NAME=value` followed by a NUL byte (`printf '%s=%s\0' 'NAME'
/// "$NAME"; ` for each name).
pub fn harvest_script(names: &Vec<String>) -> (r: String)
    ensures
        r@ == harvest_text(names@.map_values(|n: String| n@)),
{
    let ghost nv = names@.map_values(|n: String| n@);
    let mut script = String::from_str("printf '\\0GIT_SWITCH_ENV\\0'; ");
    let mut i: usize = 0;
    assert(nv.subrange(0, 0) =~= Seq::<Seq<char>>::empty());
    assert(script@ =~= harvest_text(nv.subrange(0, 0)));
    while i < names.len()
        invariant
            nv == names@.map_values(|n: String| n@),
            i <= names.len(),
            script@ == harvest_text(nv.subrange(0, i as int)),
        decreases names.len() - i,
    {
        let name = names[i].as_str();
        script.append("printf '%s=%s\\0' '");
        script.append(name);
        script.append("' \"$");
        script.append(name);
        script.append("\"; ");
        assert(nv.subrange(0, i + 1).drop_last() =~= nv.subrange(0, i as int));
        assert(script@ =~= harvest_text(nv.subrange(0, i + 1)));
        i = i + 1;
    }
    assert(nv.subrange(0, i as int) =~= nv);
    script
}

#[verifier::external_type_specification]
#[verifier::external_body]
pub struct ExUtf8Error(core::str::Utf8Error);

/// `std::str::from_utf8`: the text the bytes encode, where they are valid
/// UTF-8; an error otherwise.
#[verifier::external_body]
fn str_from_utf8(bytes: &[u8]) -> (r: Result<&str, core::str::Utf8Error>)
    ensures
        r is Ok <==> valid_utf8(bytes@),
        r matches Ok(s) ==> s@ == decode_utf8(bytes@),
{
    std::str::from_utf8(bytes)
}

/// Index of the first NUL byte at or after `from`, or the length if there is none.
pub open spec fn next_nul(b: Seq<u8>, from: int) -> int
    decreases b.len() - from,
{
    if from >= b.len() {
        b.len() as int
    } else if b[from] == 0 {
        from
    } else {
        next_nul(b, from + 1)
    }
}

pub proof fn lemma_next_nul(b: Seq<u8>, from: int)
    requires
        0 <= from,
    ensures
        from <= next_nul(b, from) || from > b.len(),
        next_nul(b, from) <= b.len(),
        next_nul(b, from) < b.len() ==> b[next_nul(b, from)] == 0,
        forall|k: int| from <= k < next_nul(b, from) ==> b[k] != 0,
    decreases b.len() - from,
{
    if from < b.len() && b[from] != 0 {
        lemma_next_nul(b, from + 1);
    }
}

/// Index of the first `'='`, or the length if there is none.
pub open spec fn first_eq(s: Seq<char>, from: int) -> int
    decreases s.len() - from,
{
    if from >= s.len() {
        s.len() as int
    } else if s[from] == '=' {
        from
    } else {
        first_eq(s, from + 1)
    }
}

/// The variable that one printed piece sets: the piece decoded as UTF-8 and
/// split at its first `'='`; none for an empty piece, one that is not UTF-8,
/// one with no `'='`, or an empty value.
pub open spec fn piece_pair(piece: Seq<u8>) -> Option<(Seq<char>, Seq<char>)> {
    if piece.len() == 0 || !valid_utf8(piece) {
        None
    } else {
        let s = decode_utf8(piece);
        let i = first_eq(s, 0);
        if i >= s.len() || i + 1 == s.len() {
            None
        } else {
            Some((s.subrange(0, i), s.subrange(i + 1, s.len() as int)))
        }
    }
}

/// The variables that the script's output sets, in order: the output split at NUL bytes.
pub open spec fn harvested_pairs(b: Seq<u8>) -> Seq<(Seq<char>, Seq<char>)>
    decreases b.len(),
{
    if b.len() == 0 {
        Seq::<(Seq<char>, Seq<char>)>::empty()
    } else {
        let i = next_nul(b, 0);
        proof {
            lemma_next_nul(b, 0);
        }
        let rest = if i < b.len() {
            b.subrange(i + 1, b.len() as int)
        } else {
            Seq::<u8>::empty()
        };
        match piece_pair(b.subrange(0, i)) {
            Some(p) => seq![p] + harvested_pairs(rest),
            None => harvested_pairs(rest),
        }
    }
}

pub open spec fn pairs_view(v: Seq<(String, String)>) -> Seq<(Seq<char>, Seq<char>)> {
    v.map_values(|p: (String, String)| (p.0@, p.1@))
}

fn piece_pair_exec(piece: &Vec<u8>) -> (r: Option<(String, String)>)
    ensures
        match r {
            Some(p) => piece_pair(piece@) == Some((p.0@, p.1@)),
            None => piece_pair(piece@) is None,
        },
{
    if piece.len() == 0 {
        return None;
    }
    let text = match str_from_utf8(piece.as_slice()) {
        Ok(t) => t,
        Err(_) => return None,
    };
    let s = chars_of(text);
    let mut i: usize = 0;
    while i < s.len() && s[i] != '='
        invariant
            i <= s.len(),
            first_eq(s@, 0) == first_eq(s@, i as int),
        decreases s.len() - i,
    {
        i = i + 1;
    }
    if i >= s.len() || i + 1 == s.len() {
        return None;
    }
    let mut k: Vec<char> = Vec::new();
    let mut j: usize = 0;
    while j < i
        invariant
            i < s.len(),
            j <= i,
            k@ == s@.subrange(0, j as int),
        decreases i - j,
    {
        k.push(s[j]);
        j = j + 1;
        assert(k@ =~= s@.subrange(0, j as int));
    }
    let mut v: Vec<char> = Vec::new();
    let mut m: usize = i + 1;
    while m < s.len()
        invariant
            i < s.len(),
            i + 1 <= m <= s.len(),
            v@ == s@.subrange(i + 1, m as int),
        decreases s.len() - m,
    {
        v.push(s[m]);
        m = m + 1;
        assert(v@ =~= s@.subrange(i + 1, m as int));
    }
    Some((string_of(&k), string_of(&v)))
}

/// The `NAME=value` pieces between NUL bytes, skipping empty pieces, pieces
/// that are not UTF-8, pieces with no `'='` and empty values.
pub fn read_pairs(stdout: &[u8]) -> (r: Vec<(String, String)>)
    ensures
        pairs_view(r@) == harvested_pairs(stdout@),
{
    let mut out: Vec<(String, String)> = Vec::new();
    let mut cur: Vec<u8> = Vec::new();
    let mut i: usize = 0;
    assert(pairs_view(out@) =~= Seq::<(Seq<char>, Seq<char>)>::empty());
    assert(cur@ + stdout@.subrange(0, stdout@.len() as int) =~= stdout@);
    while i < stdout.len()
        invariant
            i <= stdout@.len(),
            forall|k: int| 0 <= k < cur@.len() ==> cur@[k] != 0,
            pairs_view(out@) + harvested_pairs(cur@ + stdout@.subrange(i as int, stdout@.len() as int))
                == harvested_pairs(stdout@),
        decreases stdout@.len() - i,
    {
        let b = stdout[i];
        if b == 0 {
            let ghost x = cur@ + stdout@.subrange(i as int, stdout@.len() as int);
            proof {
                lemma_next_nul(x, 0);
                assert(x[cur@.len() as int] == 0);
                assert(x.subrange(0, cur@.len() as int) =~= cur@);
                assert(x.subrange(cur@.len() + 1int, x.len() as int) =~= stdout@.subrange(
                    i + 1,
                    stdout@.len() as int,
                ));
            }
            let ghost before = pairs_view(out@);
            match piece_pair_exec(&cur) {
                Some(p) => {
                    out.push(p);
                    assert(pairs_view(out@) =~= before + seq![piece_pair(cur@)->0]);
                },
                None => {},
            }
            cur = Vec::new();
            assert(cur@ + stdout@.subrange(i + 1, stdout@.len() as int) =~= stdout@.subrange(
                i + 1,
                stdout@.len() as int,
            ));
        } else {
            let ghost before = cur@;
            cur.push(b);
            assert(cur@ + stdout@.subrange(i + 1, stdout@.len() as int) =~= before + stdout@.subrange(
                i as int,
                stdout@.len() as int,
            ));
        }
        i = i + 1;
    }
    assert(cur@ + stdout@.subrange(i as int, stdout@.len() as int) =~= cur@);
    proof {
        lemma_next_nul(cur@, 0);
        assert(harvested_pairs(Seq::<u8>::empty()) =~= Seq::<(Seq<char>, Seq<char>)>::empty());
        if cur@.len() > 0 {
            assert(cur@.subrange(0, cur@.len() as int) =~= cur@);
        }
    }
    let ghost before = pairs_view(out@);
    match piece_pair_exec(&cur) {
        Some(p) => {
            out.push(p);
            assert(pairs_view(out@) =~= before + seq![piece_pair(cur@)->0]);
        },
        None => {
            assert(pairs_view(out@) =~= before + harvested_pairs(cur@));
        },
    }
    out
}


/// The variable is unset or empty, and so is to be taken from the login shell.
pub open spec fn is_missing(value: Option<Seq<char>>) -> bool {
    match value {
        Some(v) => v.len() == 0,
        None => true,
    }
}

/// Whether any of the variables, given their current values, is unset or
/// empty: only then is the login shell asked.
pub fn needs_harvest(current: &Vec<Option<String>>) -> (r: bool)
    ensures
        r == exists|i: int|
            0 <= i < current@.len() && is_missing(string_opt_view(#[trigger] current@[i])),
{
    let mut i: usize = 0;
    while i < current.len()
        invariant
            i <= current.len(),
            forall|j: int| 0 <= j < i ==> !is_missing(string_opt_view(#[trigger] current@[j])),
        decreases current.len() - i,
    {
        let missing = match &current[i] {
            Some(v) => v.as_str().is_empty(),
            None => true,
        };
        if missing {
            assert(is_missing(string_opt_view(current@[i as int])));
            return true;
        }
        i = i + 1;
    }
    false
}

/// Some pair among those already set is for the variable.
pub open spec fn sets_key(set: Seq<(Seq<char>, Seq<char>)>, key: Seq<char>) -> bool {
    exists|j: int| 0 <= j < set.len() && (#[trigger] set[j]).0 == key
}

/// The pairs that get set, in order, of the first `n` pairs read from the
/// login shell, where `current[i]` is the value that the variable of pair
/// `i` had before: a pair is set where its variable was unset or empty and
/// no pair set before it was for the same variable (which made it non-empty).
pub open spec fn applied(
    pairs: Seq<(Seq<char>, Seq<char>)>,
    current: Seq<Option<Seq<char>>>,
    n: nat,
) -> Seq<(Seq<char>, Seq<char>)>
    decreases n,
{
    if n == 0 {
        Seq::<(Seq<char>, Seq<char>)>::empty()
    } else {
        let i = n - 1;
        let before = applied(pairs, current, i as nat);
        if is_missing(current[i]) && !sets_key(before, pairs[i].0) {
            before.push(pairs[i])
        } else {
            before
        }
    }
}

pub open spec fn opt_views(v: Seq<Option<String>>) -> Seq<Option<Seq<char>>> {
    v.map_values(|o: Option<String>| string_opt_view(o))
}

fn copy_pair(p: &(String, String)) -> (r: (String, String))
    ensures
        r.0@ == p.0@,
        r.1@ == p.1@,
{
    (p.0.clone(), p.1.clone())
}

/// The variables to set from what the login shell printed, given the value
/// each pair's variable has now (`current[i]` for `pairs[i]`): a variable
/// that already has a non-empty value keeps it, and of several pairs for one
/// variable the first is set.
pub fn pairs_to_apply(pairs: &Vec<(String, String)>, current: &Vec<Option<String>>) -> (r: Vec<
    (String, String),
>)
    requires
        current@.len() == pairs@.len(),
    ensures
        pairs_view(r@) == applied(pairs_view(pairs@), opt_views(current@), pairs@.len() as nat),
{
    let ghost pv = pairs_view(pairs@);
    let ghost cv = opt_views(current@);
    let mut out: Vec<(String, String)> = Vec::new();
    let mut i: usize = 0;
    while i < pairs.len()
        invariant
            pv == pairs_view(pairs@),
            cv == opt_views(current@),
            current@.len() == pairs@.len(),
            i <= pairs.len(),
            pairs_view(out@) == applied(pv, cv, i as nat),
        decreases pairs.len() - i,
    {
        let ghost before = pairs_view(out@);
        let missing = match &current[i] {
            Some(v) => v.as_str().is_empty(),
            None => true,
        };
        assert(missing == is_missing(cv[i as int]));
        if missing {
            let key = &pairs[i].0;
            let mut seen = false;
            let mut j: usize = 0;
            while j < out.len()
                invariant
                    j <= out.len(),
                    before == pairs_view(out@),
                    i < pv.len(),
                    key@ == pv[i as int].0,
                    seen == exists|k: int| 0 <= k < j && (#[trigger] before[k]).0 == key@,
                decreases out.len() - j,
            {
                assert(before[j as int] == (out@[j as int].0@, out@[j as int].1@));
                if out[j].0 == *key {
                    seen = true;
                }
                j = j + 1;
            }
            if !seen {
                out.push(copy_pair(&pairs[i]));
                assert(pairs_view(out@) =~= before.push(pv[i as int]));
            }
        }
        i = i + 1;
    }
    out
}


/// Taking variables from the login shell never overwrites one that has a
/// value, and sets each variable at most once: every pair set is one read
/// whose variable was unset or empty, and no two pairs set are for the same
/// variable.
pub proof fn law_apply_keeps_set_variables(
    pairs: Seq<(Seq<char>, Seq<char>)>,
    current: Seq<Option<Seq<char>>>,
    n: nat,
)
    requires
        n <= pairs.len(),
        n <= current.len(),
    ensures
        forall|j: int|
            0 <= j < applied(pairs, current, n).len() ==> exists|i: int|
                0 <= i < n && #[trigger] applied(pairs, current, n)[j] == pairs[i] && is_missing(
                    current[i],
                ),
        forall|j1: int, j2: int|
            0 <= j1 < j2 < applied(pairs, current, n).len() ==> (#[trigger] applied(
                pairs,
                current,
                n,
            )[j1]).0 != (#[trigger] applied(pairs, current, n)[j2]).0,
    decreases n,
{
    if n > 0 {
        let i = n - 1;
        law_apply_keeps_set_variables(pairs, current, i as nat);
        let before = applied(pairs, current, i as nat);
        let now = applied(pairs, current, n);
        if is_missing(current[i]) && !sets_key(before, pairs[i].0) {
            assert(now == before.push(pairs[i]));
            assert forall|j: int| 0 <= j < now.len() implies exists|k: int|
                0 <= k < n && #[trigger] now[j] == pairs[k] && is_missing(current[k]) by {
                if j < before.len() {
                    assert(now[j] == before[j]);
                    let k = choose|k: int|
                        0 <= k < i && #[trigger] before[j] == pairs[k] && is_missing(current[k]);
                    assert(now[j] == pairs[k]);
                } else {
                    assert(now[j] == pairs[i]);
                }
            }
            assert forall|j1: int, j2: int| 0 <= j1 < j2 < now.len() implies (#[trigger] now[j1]).0
                != (#[trigger] now[j2]).0 by {
                assert(now[j1] == before[j1]);
                if j2 < before.len() {
                    assert(now[j2] == before[j2]);
                } else {
                    assert(now[j2] == pairs[i]);
                    if before[j1].0 == pairs[i].0 {
                        assert(sets_key(before, pairs[i].0));
                    }
                }
            }
        } else {
            assert(now == before);
            assert forall|j: int| 0 <= j < now.len() implies exists|k: int|
                0 <= k < n && #[trigger] now[j] == pairs[k] && is_missing(current[k]) by {
                let k = choose|k: int|
                    0 <= k < i && #[trigger] before[j] == pairs[k] && is_missing(current[k]);
                assert(now[j] == pairs[k]);
            }
        }
    }
}

// ---- waiting for the login shell ----

/// How long the login shell may run, in nanoseconds: five seconds.
pub const HARVEST_TIMEOUT_NANOS: u64 = 5_000_000_000;

/// How long to sleep between two looks at the login shell, in milliseconds.
pub const POLL_INTERVAL_MILLIS: u64 = 25;

/// What a look at the running login shell found.
#[derive(Clone, Copy, Debug, PartialEq, Eq, Structural)]
pub enum ChildState {
    /// It has exited.
    Exited,
    /// It is still running.
    Running,
    /// Its state could not be read.
    Unknown,
}

/// What to do next while waiting for the login shell.
#[derive(Clone, Copy, Debug, PartialEq, Eq, Structural)]
pub enum WaitAction {
    /// Collect its output.
    Collect,
    /// Sleep `POLL_INTERVAL_MILLIS` and look again.
    Sleep,
    /// It ran too long: kill it and take nothing from it.
    Kill,
    /// Take nothing from it.
    GiveUp,
}

/// The next step of waiting for the login shell, given what a look at it
/// found and how long it has run: collect its output once it exited, kill
/// it once it ran longer than `HARVEST_TIMEOUT_NANOS`, sleep and look again
/// while it runs, and give up where its state cannot be read.
pub fn next_wait_action(state: ChildState, elapsed_nanos: u64) -> (r: WaitAction)
    ensures
        r == match state {
            ChildState::Exited => WaitAction::Collect,
            ChildState::Unknown => WaitAction::GiveUp,
            ChildState::Running => if elapsed_nanos > HARVEST_TIMEOUT_NANOS {
                WaitAction::Kill
            } else {
                WaitAction::Sleep
            },
        },
{
    match state {
        ChildState::Exited => WaitAction::Collect,
        ChildState::Unknown => WaitAction::GiveUp,
        ChildState::Running => if elapsed_nanos > HARVEST_TIMEOUT_NANOS {
            WaitAction::Kill
        } else {
            WaitAction::Sleep
        },
    }
}

// ---- reading back what the script prints ----

/// What the harvest script prints for the variables and their values:
/// `NAME=value` in UTF-8 and a NUL byte, for each.
pub open spec fn printed(pairs: Seq<(Seq<char>, Seq<char>)>) -> Seq<u8>
    decreases pairs.len(),
{
    if pairs.len() == 0 {
        Seq::<u8>::empty()
    } else {
        encode_utf8(pairs[0].0 + seq!['='] + pairs[0].1) + seq![0u8] + printed(pairs.drop_first())
    }
}

/// The pairs with a non-empty value, in order.
pub open spec fn with_values(pairs: Seq<(Seq<char>, Seq<char>)>) -> Seq<(Seq<char>, Seq<char>)>
    decreases pairs.len(),
{
    if pairs.len() == 0 {
        Seq::<(Seq<char>, Seq<char>)>::empty()
    } else if pairs[0].1.len() > 0 {
        seq![pairs[0]] + with_values(pairs.drop_first())
    } else {
        with_values(pairs.drop_first())
    }
}

pub open spec fn no_char(s: Seq<char>, c: char) -> bool {
    forall|i: int| 0 <= i < s.len() ==> s[i] != c
}

/// The UTF-8 encoding of a character other than NUL holds no zero byte.
proof fn lemma_scalar_no_zero(c: char)
    requires
        c != '\0',
    ensures
        forall|i: int| 0 <= i < encode_scalar(c as u32).len() ==> #[trigger] encode_scalar(c as u32)[i] != 0,
{
    let v = c as u32;
    vstd::utf8::char_is_scalar(c);
    assert(v != 0);
    let b1 = vstd::utf8::leading_byte_width_1(v);
    let b2 = vstd::utf8::leading_byte_width_2(v);
    let b3 = vstd::utf8::leading_byte_width_3(v);
    let b4 = vstd::utf8::leading_byte_width_4(v);
    let c1 = vstd::utf8::last_continuation_byte(v);
    let c2 = vstd::utf8::second_last_continuation_byte(v);
    let c3 = vstd::utf8::third_last_continuation_byte(v);
    assert(vstd::utf8::has_width_1_encoding(v) ==> b1 != 0) by (bit_vector)
        requires
            v != 0,
            b1 == (v & 0x7F) as u8,
    ;
    assert(b2 != 0 && b3 != 0 && b4 != 0 && c1 != 0 && c2 != 0 && c3 != 0) by (bit_vector)
        requires
            b2 == 0xC0 | ((v >> 6) & 0x1F) as u8,
            b3 == 0xE0 | ((v >> 12) & 0x0F) as u8,
            b4 == 0xF0 | ((v >> 18) & 0x7) as u8,
            c1 == 0x80 | (v & 0x3F) as u8,
            c2 == 0x80 | ((v >> 6) & 0x3F) as u8,
            c3 == 0x80 | ((v >> 12) & 0x3F) as u8,
    ;
}

/// The UTF-8 encoding of a text without NUL holds no zero byte.
proof fn lemma_encode_no_zero(s: Seq<char>)
    requires
        no_char(s, '\0'),
    ensures
        forall|i: int| 0 <= i < encode_utf8(s).len() ==> encode_utf8(s)[i] != 0,
    decreases s.len(),
{
    if s.len() > 0 {
        let rest = s.drop_first();
        assert(no_char(rest, '\0')) by {
            assert forall|i: int| 0 <= i < rest.len() implies rest[i] != '\0' by {
                assert(rest[i] == s[i + 1]);
            }
        }
        lemma_encode_no_zero(rest);
        lemma_scalar_no_zero(s[0]);
        let a = encode_scalar(s[0] as u32);
        let b = encode_utf8(rest);
        assert(encode_utf8(s) == a + b);
        assert forall|i: int| 0 <= i < encode_utf8(s).len() implies encode_utf8(s)[i] != 0 by {
            if i < a.len() {
                assert(encode_utf8(s)[i] == a[i]);
            } else {
                assert(encode_utf8(s)[i] == b[i - a.len()]);
            }
        }
    }
}

/// The first `'='` of a name without one, an `'='` and a value is right after the name.
proof fn lemma_first_eq_after_name(k: Seq<char>, v: Seq<char>, from: int)
    requires
        0 <= from <= k.len(),
        no_char(k, '='),
    ensures
        first_eq(k + seq!['='] + v, from) == k.len(),
    decreases k.len() - from,
{
    let s = k + seq!['='] + v;
    if from < k.len() {
        assert(s[from] == k[from]);
        lemma_first_eq_after_name(k, v, from + 1);
    } else {
        assert(s[from] == '=');
    }
}

/// One printed piece reads back as its pair, or as nothing where the value is empty.
proof fn lemma_piece_reads_back(k: Seq<char>, v: Seq<char>)
    requires
        no_char(k, '='),
    ensures
        piece_pair(encode_utf8(k + seq!['='] + v)) == if v.len() > 0 {
            Some((k, v))
        } else {
            None::<(Seq<char>, Seq<char>)>
        },
{
    let s = k + seq!['='] + v;
    let b = encode_utf8(s);
    vstd::utf8::encode_utf8_valid_utf8(s);
    vstd::utf8::encode_utf8_decode_utf8(s);
    assert(b.len() > 0) by {
        assert(s.len() > 0);
        assert(b == encode_scalar(s[0] as u32) + encode_utf8(s.drop_first()));
        vstd::utf8::char_is_scalar(s[0]);
    }
    lemma_first_eq_after_name(k, v, 0);
    assert(s.subrange(0, k.len() as int) =~= k);
    assert(s.subrange(k.len() + 1int, s.len() as int) =~= v);
}

/// The bytes of a piece without NUL, a NUL, and more: the piece's pair,
/// then the pairs of the rest.
proof fn lemma_harvest_cons(x: Seq<u8>, rest: Seq<u8>)
    requires
        forall|i: int| 0 <= i < x.len() ==> x[i] != 0,
    ensures
        harvested_pairs(x + seq![0u8] + rest) == match piece_pair(x) {
            Some(p) => seq![p] + harvested_pairs(rest),
            None => harvested_pairs(rest),
        },
{
    let b = x + seq![0u8] + rest;
    assert(b[x.len() as int] == 0);
    assert forall|k: int| 0 <= k < x.len() implies b[k] != 0 by {
        assert(b[k] == x[k]);
    }
    lemma_next_nul(b, 0);
    let i = next_nul(b, 0);
    assert(i == x.len()) by {
        if i < x.len() {
            assert(b[i] == x[i]);
        }
    }
    assert(b.subrange(0, i) =~= x);
    assert(b.subrange(i + 1, b.len() as int) =~= rest);
}

/// Reading what the harvest script prints gives back each variable whose
/// value is not empty, with that value, in order. A shell variable's name
/// holds no `'='`, and neither name nor value holds a NUL.
pub proof fn law_harvest_reads_back(pairs: Seq<(Seq<char>, Seq<char>)>)
    requires
        forall|i: int|
            0 <= i < pairs.len() ==> no_char(#[trigger] pairs[i].0, '=') && no_char(pairs[i].0, '\0')
                && no_char(pairs[i].1, '\0'),
    ensures
        harvested_pairs(printed(pairs)) == with_values(pairs),
    decreases pairs.len(),
{
    if pairs.len() == 0 {
        assert(harvested_pairs(Seq::<u8>::empty()) == Seq::<(Seq<char>, Seq<char>)>::empty());
    } else {
        let (k, v) = pairs[0];
        let rest = pairs.drop_first();
        assert forall|i: int| 0 <= i < rest.len() implies no_char(#[trigger] rest[i].0, '=')
            && no_char(rest[i].0, '\0') && no_char(rest[i].1, '\0') by {
            assert(rest[i] == pairs[i + 1]);
        }
        law_harvest_reads_back(rest);
        let s = k + seq!['='] + v;
        assert(no_char(s, '\0')) by {
            assert forall|i: int| 0 <= i < s.len() implies s[i] != '\0' by {
                if i < k.len() {
                    assert(s[i] == k[i]);
                } else if i > k.len() {
                    assert(s[i] == v[i - k.len() - 1]);
                }
            }
        }
        lemma_encode_no_zero(s);
        lemma_harvest_cons(encode_utf8(s), printed(rest));
        lemma_piece_reads_back(k, v);
    }
}


// ---- the marker ----

/// `GIT_SWITCH_ENV` in ASCII.
pub open spec fn marker_word() -> Seq<u8> {
    seq![71u8, 73, 84, 95, 83, 87, 73, 84, 67, 72, 95, 69, 78, 86]
}

/// What the script prints before the variables: a NUL byte,
/// `GIT_SWITCH_ENV`, a NUL byte. Start-up files of the shell may print
/// anything before it; the variables follow it.
pub open spec fn marker() -> Seq<u8> {
    seq![0u8] + marker_word() + seq![0u8]
}

/// The marker stands at position `p`.
pub open spec fn marker_at(b: Seq<u8>, p: int) -> bool {
    0 <= p && p + 16 <= b.len() && b.subrange(p, p + 16) == marker()
}

/// The last position at or before `p` where the marker stands; -1 where there is none.
pub open spec fn last_marker_from(b: Seq<u8>, p: int) -> int
    decreases p + 1,
{
    if p < 0 {
        -1
    } else if marker_at(b, p) {
        p
    } else {
        last_marker_from(b, p - 1)
    }
}

/// What follows the last marker of the output; `None` where it holds none.
pub open spec fn after_last_marker(b: Seq<u8>) -> Option<Seq<u8>> {
    let q = last_marker_from(b, b.len() - 16);
    if q < 0 {
        None
    } else {
        Some(b.subrange(q + 16, b.len() as int))
    }
}

/// The pairs that the output of the script gives: those after its last
/// marker; none where the marker is missing.
pub open spec fn harvested_output(b: Seq<u8>) -> Seq<(Seq<char>, Seq<char>)> {
    match after_last_marker(b) {
        Some(x) => harvested_pairs(x),
        None => Seq::<(Seq<char>, Seq<char>)>::empty(),
    }
}

fn marker_at_exec(b: &[u8], p: usize) -> (r: bool)
    requires
        p + 16 <= b@.len(),
    ensures
        r == marker_at(b@, p as int),
{
    let m: Vec<u8> = vec![0u8, 71, 73, 84, 95, 83, 87, 73, 84, 67, 72, 95, 69, 78, 86, 0];
    assert(m@ =~= marker());
    let mut j: usize = 0;
    while j < 16
        invariant
            p + 16 <= b@.len(),
            b@.len() == b.len(),
            m@ == marker(),
            j <= 16,
            forall|k: int| 0 <= k < j ==> b@[p + k] == m@[k],
        decreases 16 - j,
    {
        if b[p + j] != m[j] {
            assert(b@.subrange(p as int, p + 16)[j as int] != marker()[j as int]);
            return false;
        }
        j = j + 1;
    }
    assert(b@.subrange(p as int, p + 16) =~= marker());
    true
}

/// Reads the output of the harvest script: the `NAME=value` pieces after
/// the last marker (whatever the shell's start-up files printed before it
/// is skipped), between NUL bytes, skipping empty pieces, pieces that are
/// not UTF-8, pieces with no `'='` and empty values. Nothing where the
/// output holds no marker.
pub fn parse_harvest_output(stdout: &[u8]) -> (r: Vec<(String, String)>)
    ensures
        pairs_view(r@) == harvested_output(stdout@),
{
    if stdout.len() < 16 {
        assert(last_marker_from(stdout@, stdout@.len() - 16) == -1);
        let none: Vec<(String, String)> = Vec::new();
        assert(pairs_view(none@) =~= Seq::<(Seq<char>, Seq<char>)>::empty());
        return none;
    }
    let mut p: usize = stdout.len() - 16;
    loop
        invariant
            p + 16 <= stdout@.len(),
            last_marker_from(stdout@, stdout@.len() - 16) == last_marker_from(stdout@, p as int),
        ensures
            p + 16 <= stdout@.len(),
            marker_at(stdout@, p as int),
            last_marker_from(stdout@, stdout@.len() - 16) == p,
        decreases p,
    {
        if marker_at_exec(stdout, p) {
            break;
        }
        if p == 0 {
            assert(last_marker_from(stdout@, -1) == -1);
            let none: Vec<(String, String)> = Vec::new();
            assert(pairs_view(none@) =~= Seq::<(Seq<char>, Seq<char>)>::empty());
            return none;
        }
        p = p - 1;
    }
    let mut rest: Vec<u8> = Vec::new();
    let mut k: usize = p + 16;
    while k < stdout.len()
        invariant
            p + 16 <= k <= stdout@.len(),
            rest@ == stdout@.subrange(p + 16, k as int),
        decreases stdout.len() - k,
    {
        rest.push(stdout[k]);
        k = k + 1;
        assert(rest@ =~= stdout@.subrange(p + 16, k as int));
    }
    read_pairs(rest.as_slice())
}

/// Every run of bytes that the script prints between NUL bytes (or from
/// the start) holds an `'='`.
proof fn lemma_printed_runs(pairs: Seq<(Seq<char>, Seq<char>)>, a: int, c: int)
    requires
        forall|i: int|
            0 <= i < pairs.len() ==> no_char(#[trigger] pairs[i].0, '\0') && no_char(pairs[i].1, '\0'),
        0 <= a <= c < printed(pairs).len(),
        a == 0 || printed(pairs)[a - 1] == 0,
        printed(pairs)[c] == 0,
        forall|e: int| a <= e < c ==> printed(pairs)[e] != 0,
    ensures
        exists|e: int| a <= e < c && printed(pairs)[e] == 61,
    decreases pairs.len(),
{
    let pr = printed(pairs);
    if pairs.len() == 0 {
        assert(pr.len() == 0);
    } else {
        let (k, v) = pairs[0];
        let rest = pairs.drop_first();
        let st = k + seq!['='] + v;
        let piece = encode_utf8(st);
        assert(pr == piece + seq![0u8] + printed(rest));
        assert(no_char(st, '\0')) by {
            assert forall|i: int| 0 <= i < st.len() implies st[i] != '\0' by {
                if i < k.len() {
                    assert(st[i] == k[i]);
                } else if i > k.len() {
                    assert(st[i] == v[i - k.len() - 1]);
                }
            }
        }
        lemma_encode_no_zero(st);
        crate::text::lemma_encode_utf8_concat(k, seq!['='] + v);
        crate::text::lemma_encode_utf8_concat(seq!['='], v);
        assert(st =~= k + (seq!['='] + v));
        let eq = encode_utf8(seq!['=']);
        assert(seq!['='].drop_first() =~= Seq::<char>::empty());
        assert(eq == encode_scalar('=' as u32) + encode_utf8(Seq::<char>::empty()));
        assert(((61u32 & 0x7Fu32) as u8) == 61u8) by (bit_vector);
        assert(eq =~= seq![61u8]);
        let kl = encode_utf8(k).len();
        assert(piece =~= encode_utf8(k) + (seq![61u8] + encode_utf8(v)));
        assert(piece[kl as int] == 61);
        assert(pr[piece.len() as int] == 0);
        if a == 0 {
            if c < piece.len() {
                assert(pr[c] == piece[c]);
            }
            if c > piece.len() {
                assert(pr[piece.len() as int] == 0);
            }
            assert(c == piece.len());
            assert(pr[kl as int] == 61);
        } else {
            if a - 1 < piece.len() {
                assert(pr[a - 1] == piece[a - 1]);
            }
            let off = piece.len() + 1;
            let rp = printed(rest);
            assert forall|i: int| 0 <= i < rest.len() implies no_char(#[trigger] rest[i].0, '\0')
                && no_char(rest[i].1, '\0') by {
                assert(rest[i] == pairs[i + 1]);
            }
            assert forall|e: int| a - off <= e < c - off implies rp[e] != 0 by {
                assert(rp[e] == pr[e + off]);
            }
            assert(rp[c - off] == pr[c]);
            if a - off > 0 {
                assert(rp[a - off - 1] == pr[a - 1]);
            }
            lemma_printed_runs(rest, a - off, c - off);
            let e = choose|e: int| a - off <= e < c - off && rp[e] == 61;
            assert(pr[e + off] == rp[e]);
        }
    }
}

/// The marker never stands inside what the script prints for the variables,
/// nor across its own end.
proof fn lemma_no_later_marker(
    noise: Seq<u8>,
    pairs: Seq<(Seq<char>, Seq<char>)>,
    q: int,
)
    requires
        forall|i: int|
            0 <= i < pairs.len() ==> no_char(#[trigger] pairs[i].0, '\0') && no_char(pairs[i].1, '\0'),
        noise.len() < q,
    ensures
        !marker_at(noise + marker() + printed(pairs), q),
{
    let b = noise + marker() + printed(pairs);
    let n = noise.len() as int;
    let pr = printed(pairs);
    let w = marker_word();
    if marker_at(b, q) {
        let j = q - n;
        assert(b.subrange(q, q + 16)[0] == 0);
        assert(b[q] == 0);
        if j <= 14 {
            assert(b[q] == marker()[j]);
            assert(marker()[j] == w[j - 1]);
        } else {
            let a = q + 1 - n - 16;
            assert forall|e: int| 0 <= e < 14 implies pr[a + e] == w[e] by {
                assert(b.subrange(q, q + 16)[e + 1] == marker()[e + 1]);
                assert(b[q + 1 + e] == pr[a + e]);
            }
            assert(b.subrange(q, q + 16)[15] == marker()[15]);
            assert(b[q + 15] == pr[a + 14]);
            assert(pr[a + 14] == 0);
            if a > 0 {
                assert(b[q] == pr[a - 1]);
            }
            assert forall|e: int| a <= e < a + 14 implies pr[e] != 0 by {
                assert(pr[e] == w[e - a]);
            }
            lemma_printed_runs(pairs, a, a + 14);
            let e = choose|e: int| a <= e < a + 14 && pr[e] == 61;
            assert(pr[e] == w[e - a]);
        }
    }
}

proof fn lemma_last_marker_down(b: Seq<u8>, n: int, p: int)
    requires
        0 <= n <= p,
        marker_at(b, n),
        forall|q: int| n < q <= p ==> !marker_at(b, q),
    ensures
        last_marker_from(b, p) == n,
    decreases p - n,
{
    if p > n {
        lemma_last_marker_down(b, n, p - 1);
    }
}

/// Whatever the shell's start-up files print before it, the script's output
/// reads back as each variable whose value is not empty, with that value, in
/// order. A shell variable's name holds no `'='`, and neither name nor
/// value holds a NUL.
pub proof fn law_harvest_skips_noise(noise: Seq<u8>, pairs: Seq<(Seq<char>, Seq<char>)>)
    requires
        forall|i: int|
            0 <= i < pairs.len() ==> no_char(#[trigger] pairs[i].0, '=') && no_char(pairs[i].0, '\0')
                && no_char(pairs[i].1, '\0'),
    ensures
        after_last_marker(noise + marker() + printed(pairs)) == Some(printed(pairs)),
        harvested_output(noise + marker() + printed(pairs)) == with_values(pairs),
{
    let b = noise + marker() + printed(pairs);
    let n = noise.len() as int;
    assert(b.subrange(n, n + 16) =~= marker());
    assert forall|i: int| 0 <= i < pairs.len() implies no_char(#[trigger] pairs[i].0, '\0')
        && no_char(pairs[i].1, '\0') by {
        assert(no_char(pairs[i].0, '='));
    }
    assert forall|q: int| n < q <= b.len() - 16 implies !marker_at(b, q) by {
        lemma_no_later_marker(noise, pairs, q);
    }
    lemma_last_marker_down(b, n, b.len() - 16);
    assert(b.subrange(n + 16, b.len() as int) =~= printed(pairs));
    law_harvest_reads_back(pairs);
}

} // verus!
