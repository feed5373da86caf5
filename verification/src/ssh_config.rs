//! Reading and rewriting the `IdentityFile` of a `Host` block in an SSH
//! client configuration.
use vstd::prelude::*;
use vstd::string::StringSliceAdditionalSpecFns;
use vstd::utf8::encode_utf8;
use crate::git_config::{host_for_provider, provider_host, string_opt_view, str_opt_view};
use crate::text::{
    all_ws, chars_eq, chars_of, clone_chars, has_char, is_ws, join_lines, join_lines_vec,
    lemma_first_lf, lemma_next_lf_bounds, lemma_trim_commute, lemma_trim_end_all_ws,
    lemma_trim_end_idem, lemma_trim_end_prepend, lemma_trim_end_shape, lemma_trim_start_all_ws,
    lemma_trim_start_prepend_ws, lines_view, next_lf, raw_lines, raw_lines_of, starts_with,
    starts_with_chars, string_of, trim, trim_chars, trim_end, trim_start,
};

verus! {

/// `"Host"`.
pub open spec fn host_word() -> Seq<char> {
    seq!['H', 'o', 's', 't']
}

/// `"IdentityFile"`.
pub open spec fn identity_word() -> Seq<char> {
    seq!['I', 'd', 'e', 'n', 't', 'i', 't', 'y', 'F', 'i', 'l', 'e']
}

/// `"  AddKeysToAgent yes"`.
pub open spec fn add_keys_line() -> Seq<char> {
    seq![' ', ' ', 'A', 'd', 'd', 'K', 'e', 'y', 's', 'T', 'o', 'A', 'g', 'e', 'n', 't', ' ', 'y', 'e', 's']
}

/// A trimmed line that opens a `Host` block: `"Host "` or `"Host\t"` begins it.
pub open spec fn is_host_line(t: Seq<char>) -> bool {
    starts_with(t, host_word().push(' ')) || starts_with(t, host_word().push('\t'))
}

/// The pattern of a trimmed `Host` line: what follows `"Host"`, trimmed.
pub open spec fn host_value(t: Seq<char>) -> Seq<char> {
    trim(t.subrange(4, t.len() as int))
}

/// A trimmed line that sets the identity file: `"IdentityFile "` begins it.
pub open spec fn is_identity_line(t: Seq<char>) -> bool {
    starts_with(t, identity_word().push(' '))
}

/// The path of a trimmed `IdentityFile` line: what follows the keyword, trimmed.
pub open spec fn identity_value(t: Seq<char>) -> Seq<char> {
    trim(t.subrange(12, t.len() as int))
}

/// The line that the rewrite writes for the key: `"  IdentityFile <key>"`.
pub open spec fn identity_line(key: Seq<char>) -> Seq<char> {
    seq![' ', ' '] + identity_word() + seq![' '] + key
}

/// The line that opens a new block for the host: `"Host <host>"`.
pub open spec fn new_host_line(host: Seq<char>) -> Seq<char> {
    host_word() + seq![' '] + host
}

/// The line opens the block of exactly this host.
pub open spec fn opens_block_of(line: Seq<char>, host: Seq<char>) -> bool {
    is_host_line(trim(line)) && host_value(trim(line)) == host
}

/// Some line of the configuration opens the block of the host.
pub open spec fn has_host_block(lines: Seq<Seq<char>>, host: Seq<char>) -> bool {
    exists|i: int| 0 <= i < lines.len() && opens_block_of(#[trigger] lines[i], host)
}

/// The lines with every `IdentityFile` line inside a block of `host` replaced
/// by the key's line, and the key's line added at the end of each such block
/// that had none. `in_block`: the lines start inside a block of `host`;
/// `pending`: that block has not yet had its key's line.
pub open spec fn rewrite_lines(
    lines: Seq<Seq<char>>,
    host: Seq<char>,
    key: Seq<char>,
    in_block: bool,
    pending: bool,
) -> Seq<Seq<char>>
    decreases lines.len(),
{
    let tail: Seq<Seq<char>> = if pending {
        seq![identity_line(key)]
    } else {
        seq![]
    };
    if lines.len() == 0 {
        tail
    } else {
        let line = lines[0];
        let t = trim(line);
        let rest = lines.drop_first();
        if is_host_line(t) {
            if host_value(t) == host {
                tail + seq![line] + rewrite_lines(rest, host, key, true, true)
            } else {
                tail + seq![line] + rewrite_lines(rest, host, key, false, false)
            }
        } else if in_block && is_identity_line(t) {
            seq![identity_line(key)] + rewrite_lines(rest, host, key, true, false)
        } else {
            seq![line] + rewrite_lines(rest, host, key, in_block, pending)
        }
    }
}

/// The lines of the rewritten configuration: the blocks of `host` rewritten,
/// or, where there is none, a new block for it appended after an empty line.
pub open spec fn rewritten_lines(lines: Seq<Seq<char>>, host: Seq<char>, key: Seq<char>) -> Seq<
    Seq<char>,
> {
    let body = rewrite_lines(lines, host, key, false, false);
    if has_host_block(lines, host) {
        body
    } else {
        let sep: Seq<Seq<char>> = if body.len() > 0 && body.last().len() > 0 {
            seq![seq![]]
        } else {
            seq![]
        };
        body + sep + seq![new_host_line(host), add_keys_line(), identity_line(key)]
    }
}

/// The configuration text after setting the host's identity file to `key`:
/// the rewritten lines, each ended by a line feed.
pub open spec fn rewritten_config(content: Seq<char>, host: Seq<char>, key: Seq<char>) -> Seq<char> {
    join_lines(rewritten_lines(raw_lines(content), host, key)).push('\n')
}

/// The identity file of the first `IdentityFile` line inside a block of `host`.
pub open spec fn detect_in_lines(lines: Seq<Seq<char>>, host: Seq<char>, in_block: bool) -> Option<
    Seq<char>,
>
    decreases lines.len(),
{
    if lines.len() == 0 {
        None
    } else {
        let t = trim(lines[0]);
        if is_host_line(t) {
            detect_in_lines(lines.drop_first(), host, host_value(t) == host)
        } else if in_block && is_identity_line(t) {
            Some(identity_value(t))
        } else {
            detect_in_lines(lines.drop_first(), host, in_block)
        }
    }
}

/// The identity file that the configuration text sets for the host, if any.
pub open spec fn configured_key(content: Seq<char>, host: Seq<char>) -> Option<Seq<char>> {
    detect_in_lines(raw_lines(content), host, false)
}

/// `"Host "` / `"Host\t"` begins the trimmed line.
fn is_host_line_exec(t: &Vec<char>) -> (b: bool)
    ensures
        b == is_host_line(t@),
{
    let a = vec!['H', 'o', 's', 't', ' '];
    let b = vec!['H', 'o', 's', 't', '\t'];
    assert(a@ =~= host_word().push(' '));
    assert(b@ =~= host_word().push('\t'));
    starts_with_chars(t, &a) || starts_with_chars(t, &b)
}

/// `"IdentityFile "` begins the trimmed line.
fn is_identity_line_exec(t: &Vec<char>) -> (b: bool)
    ensures
        b == is_identity_line(t@),
{
    let a = vec!['I', 'd', 'e', 'n', 't', 'i', 't', 'y', 'F', 'i', 'l', 'e', ' '];
    assert(a@ =~= identity_word().push(' '));
    starts_with_chars(t, &a)
}

/// What follows the first `n` characters, trimmed.
fn trimmed_rest(t: &Vec<char>, n: usize) -> (r: Vec<char>)
    requires
        n <= t.len(),
    ensures
        r@ == trim(t@.subrange(n as int, t@.len() as int)),
{
    let mut rest: Vec<char> = Vec::new();
    let mut k: usize = n;
    while k < t.len()
        invariant
            n <= k <= t.len(),
            rest@ == t@.subrange(n as int, k as int),
        decreases t.len() - k,
    {
        rest.push(t[k]);
        k = k + 1;
        assert(rest@ =~= t@.subrange(n as int, k as int));
    }
    trim_chars(&rest)
}

fn identity_line_exec(key: &Vec<char>) -> (r: Vec<char>)
    ensures
        r@ == identity_line(key@),
{
    let mut r = vec![' ', ' ', 'I', 'd', 'e', 'n', 't', 'i', 't', 'y', 'F', 'i', 'l', 'e', ' '];
    let ghost start = r@;
    let mut k: usize = 0;
    while k < key.len()
        invariant
            k <= key.len(),
            r@ == start + key@.subrange(0, k as int),
        decreases key.len() - k,
    {
        r.push(key[k]);
        k = k + 1;
        assert(r@ =~= start + key@.subrange(0, k as int));
    }
    assert(r@ =~= identity_line(key@));
    r
}

fn new_host_line_exec(host: &Vec<char>) -> (r: Vec<char>)
    ensures
        r@ == new_host_line(host@),
{
    let mut r = vec!['H', 'o', 's', 't', ' '];
    let ghost start = r@;
    let mut k: usize = 0;
    while k < host.len()
        invariant
            k <= host.len(),
            r@ == start + host@.subrange(0, k as int),
        decreases host.len() - k,
    {
        r.push(host[k]);
        k = k + 1;
        assert(r@ =~= start + host@.subrange(0, k as int));
    }
    assert(r@ =~= new_host_line(host@));
    r
}

/// Sets the `IdentityFile` of the `Host` block for `host` to `key_path`:
/// each `IdentityFile` line inside a block of `host` is replaced, a block of
/// `host` that has none gets one at its end, and where no block of `host`
/// exists one is appended (after an empty line, with `AddKeysToAgent yes`).
/// Every other line is kept byte for byte, a `'\r'` before its line feed and
/// empty lines at the end included; a `'\r'` only counts as whitespace where
/// a line is read as a `Host` or `IdentityFile` line. Each line of the result
/// ends with a line feed.
pub fn rewrite_ssh_host_block(content: &str, host: &str, key_path: &str) -> (r: String)
    ensures
        r@ == rewritten_config(content@, host@, key_path@),
{
    let text = chars_of(content);
    let lines = raw_lines_of(&text);
    let host_c = chars_of(host);
    let key_c = chars_of(key_path);
    let ident = identity_line_exec(&key_c);
    let ghost lv = lines_view(lines@);
    let ghost h = host@;
    let ghost k = key_path@;
    let mut result: Vec<Vec<char>> = Vec::new();
    let mut found_host = false;
    let mut in_block = false;
    let mut pending = false;
    let mut i: usize = 0;
    assert(lv.subrange(0, lv.len() as int) =~= lv);
    assert(lines_view(result@) =~= Seq::<Seq<char>>::empty());
    while i < lines.len()
        invariant
            lv == lines_view(lines@),
            h == host_c@,
            k == key_c@,
            ident@ == identity_line(k),
            i <= lines.len(),
            lines_view(result@) + rewrite_lines(
                lv.subrange(i as int, lv.len() as int),
                h,
                k,
                in_block,
                pending,
            ) == rewrite_lines(lv, h, k, false, false),
            found_host == exists|j: int| 0 <= j < i && opens_block_of(#[trigger] lv[j], h),
        decreases lines.len() - i,
    {
        let ghost rest = lv.subrange(i as int, lv.len() as int);
        let ghost old_result = lines_view(result@);
        let ghost was_in = in_block;
        let ghost was_pending = pending;
        assert(rest[0] == lines@[i as int]@);
        assert(rest.drop_first() =~= lv.subrange(i + 1, lv.len() as int));
        let line = &lines[i];
        let t = trim_chars(line);
        if is_host_line_exec(&t) {
            if pending {
                result.push(clone_chars(&ident));
            }
            let v = trimmed_rest(&t, 4);
            if chars_eq(&v, &host_c) {
                found_host = true;
                in_block = true;
                pending = true;
            } else {
                in_block = false;
                pending = false;
            }
            result.push(clone_chars(line));
        } else if in_block && is_identity_line_exec(&t) {
            result.push(clone_chars(&ident));
            pending = false;
        } else {
            result.push(clone_chars(line));
        }
        assert(lines_view(result@) + rewrite_lines(
            lv.subrange(i + 1, lv.len() as int),
            h,
            k,
            in_block,
            pending,
        ) =~= old_result + rewrite_lines(rest, h, k, was_in, was_pending));
        i = i + 1;
        assert(found_host == exists|j: int| 0 <= j < i && opens_block_of(#[trigger] lv[j], h));
    }
    assert(lv.subrange(i as int, lv.len() as int) =~= Seq::<Seq<char>>::empty());
    if pending {
        result.push(clone_chars(&ident));
    }
    let ghost body = lines_view(result@);
    assert(body =~= rewrite_lines(lv, h, k, false, false));
    assert(found_host == has_host_block(lv, h));
    if !found_host {
        if result.len() > 0 && result[result.len() - 1].len() > 0 {
            result.push(Vec::new());
        }
        let ghost with_sep = lines_view(result@);
        result.push(new_host_line_exec(&host_c));
        result.push(
            vec![
                ' ',
                ' ',
                'A',
                'd',
                'd',
                'K',
                'e',
                'y',
                's',
                'T',
                'o',
                'A',
                'g',
                'e',
                'n',
                't',
                ' ',
                'y',
                'e',
                's',
            ],
        );
        result.push(clone_chars(&ident));
        assert(lines_view(result@) =~= with_sep + seq![
            new_host_line(h),
            add_keys_line(),
            identity_line(k),
        ]);
    }
    assert(lines_view(result@) =~= rewritten_lines(lv, h, k));
    let mut joined = join_lines_vec(&result);
    joined.push('\n');
    string_of(&joined)
}


/// The optional text taken by its view.
pub open spec fn opt_view(o: Option<String>) -> Option<Seq<char>> {
    match o {
        Some(s) => Some(s@),
        None => None,
    }
}

/// The path of the first `IdentityFile` line inside a `Host` block whose
/// pattern is exactly `host`, trimmed; `None` where there is none.
pub fn configured_identity_file(content: &str, host: &str) -> (r: Option<String>)
    ensures
        opt_view(r) == configured_key(content@, host@),
{
    let text = chars_of(content);
    let lines = raw_lines_of(&text);
    let host_c = chars_of(host);
    let ghost lv = lines_view(lines@);
    let mut in_block = false;
    let mut i: usize = 0;
    assert(lv.subrange(0, lv.len() as int) =~= lv);
    while i < lines.len()
        invariant
            lv == lines_view(lines@),
            lv == raw_lines(content@),
            host@ == host_c@,
            i <= lines.len(),
            detect_in_lines(lv.subrange(i as int, lv.len() as int), host@, in_block)
                == detect_in_lines(lv, host@, false),
        decreases lines.len() - i,
    {
        let ghost rest = lv.subrange(i as int, lv.len() as int);
        assert(rest[0] == lines@[i as int]@);
        assert(rest.drop_first() =~= lv.subrange(i + 1, lv.len() as int));
        let t = trim_chars(&lines[i]);
        if is_host_line_exec(&t) {
            let v = trimmed_rest(&t, 4);
            in_block = chars_eq(&v, &host_c);
        } else if in_block && is_identity_line_exec(&t) {
            let path = trimmed_rest(&t, 12);
            assert(detect_in_lines(rest, host@, in_block) == Some(path@));
            let found = string_of(&path);
            assert(opt_view(Some(found)) == Some(path@));
            return Some(found);
        }
        i = i + 1;
    }
    assert(lv.subrange(i as int, lv.len() as int) =~= Seq::<Seq<char>>::empty());
    None
}


/// No line of the split text holds a line feed.
proof fn lemma_raw_lines_no_lf(s: Seq<char>)
    ensures
        forall|i: int| 0 <= i < raw_lines(s).len() ==> !has_char(#[trigger] raw_lines(s)[i], '\n'),
    decreases s.len(),
{
    if s.len() > 0 {
        let i = next_lf(s, 0);
        lemma_next_lf_bounds(s, 0);
        if i < s.len() {
            let rest = s.subrange(i + 1, s.len() as int);
            lemma_raw_lines_no_lf(rest);
            let first = s.subrange(0, i);
            assert(!has_char(first, '\n')) by {
                if has_char(first, '\n') {
                    let k = choose|k: int| 0 <= k < first.len() && first[k] == '\n';
                    assert(s[k] == '\n');
                }
            }
            let r = raw_lines(s);
            assert(r == seq![first] + raw_lines(rest));
            assert forall|j: int| 0 <= j < r.len() implies !has_char(#[trigger] r[j], '\n') by {
                if j > 0 {
                    assert(r[j] == raw_lines(rest)[j - 1]);
                }
            }
        } else {
            assert(raw_lines(s) == seq![s]);
            assert forall|j: int| 0 <= j < raw_lines(s).len() implies !has_char(
                #[trigger] raw_lines(s)[j],
                '\n',
            ) by {
                if has_char(s, '\n') {
                    let k = choose|k: int| 0 <= k < s.len() && s[k] == '\n';
                    assert(k >= i);
                }
            }
        }
    }
}

/// Splitting the lines written each with a line feed gives them back as they are.
proof fn lemma_raw_split_join(r: Seq<Seq<char>>)
    requires
        r.len() > 0,
        forall|i: int| 0 <= i < r.len() ==> !has_char(#[trigger] r[i], '\n'),
    ensures
        raw_lines(join_lines(r).push('\n')) == r,
    decreases r.len(),
{
    let x = r[0];
    let s = join_lines(r).push('\n');
    assert forall|k: int| 0 <= k < x.len() implies x[k] != '\n' by {
        if x[k] == '\n' {
            assert(has_char(r[0], '\n'));
        }
    }
    if r.len() == 1 {
        assert(s =~= x.push('\n'));
        lemma_first_lf(s, x.len() as int);
        assert(s.subrange(0, x.len() as int) =~= x);
        assert(s.subrange(x.len() + 1int, s.len() as int) =~= Seq::<char>::empty());
        assert(raw_lines(Seq::<char>::empty()) =~= Seq::<Seq<char>>::empty());
        assert(raw_lines(s) =~= seq![x]);
        assert(r =~= seq![x]);
    } else {
        let rest = r.drop_first();
        assert forall|i: int| 0 <= i < rest.len() implies !has_char(#[trigger] rest[i], '\n') by {
            assert(rest[i] == r[i + 1]);
        }
        lemma_raw_split_join(rest);
        assert(s =~= x + seq!['\n'] + join_lines(rest).push('\n'));
        lemma_first_lf(s, x.len() as int);
        assert(s.subrange(0, x.len() as int) =~= x);
        assert(s.subrange(x.len() + 1int, s.len() as int) =~= join_lines(rest).push('\n'));
        assert(raw_lines(s) =~= seq![x] + rest);
        assert(r =~= seq![x] + rest);
    }
}

proof fn lemma_empty_line_inert()
    ensures
        !is_host_line(trim(Seq::<char>::empty())),
        !is_identity_line(trim(Seq::<char>::empty())),
{
    lemma_trim_start_all_ws(Seq::<char>::empty());
    lemma_trim_end_all_ws(Seq::<char>::empty());
}

/// The trim of a line made of leading whitespace, a keyword, a space and a
/// value; and the trim of what follows the keyword.
proof fn lemma_keyword_line(p: Seq<char>, w: Seq<char>, x: Seq<char>)
    requires
        all_ws(p),
        w.len() > 0,
        !is_ws(w[0]),
        !all_ws(x),
    ensures
        trim(p + w + seq![' '] + x) == w + seq![' '] + trim_end(x),
        trim((w + seq![' '] + trim_end(x)).subrange(w.len() as int, w.len() + 1int + trim_end(x).len()))
            == trim(x),
{
    let y = w + seq![' '] + x;
    assert(p + w + seq![' '] + x =~= p + y);
    lemma_trim_start_prepend_ws(p, y);
    assert(y[0] == w[0]);
    assert(trim_start(y) == y);
    assert(y =~= (w + seq![' ']) + x);
    lemma_trim_end_prepend(w + seq![' '], x);
    let te = trim_end(x);
    let z = w + seq![' '] + te;
    assert(z.subrange(w.len() as int, w.len() + 1int + te.len()) =~= seq![' '] + te);
    assert(all_ws(seq![' ']));
    lemma_trim_start_prepend_ws(seq![' '], te);
    lemma_trim_commute(te);
    lemma_trim_end_idem(x);
    lemma_trim_commute(x);
}

/// The line written for the key is an `IdentityFile` line that reads back as the trimmed key.
pub open spec fn key_line_reads_back(key: Seq<char>) -> bool {
    let t = trim(identity_line(key));
    &&& !is_host_line(t)
    &&& is_identity_line(t)
    &&& identity_value(t) == trim(key)
}

proof fn lemma_key_line(key: Seq<char>)
    requires
        !all_ws(key),
    ensures
        key_line_reads_back(key),
{
    assert(all_ws(seq![' ', ' ']));
    assert(identity_line(key) == seq![' ', ' '] + identity_word() + seq![' '] + key);
    lemma_keyword_line(seq![' ', ' '], identity_word(), key);
    let t = trim(identity_line(key));
    assert(t.subrange(0, 13) =~= identity_word().push(' '));
    assert(t[0] == 'I');
    assert(!starts_with(t, host_word().push(' '))) by {
        if starts_with(t, host_word().push(' ')) {
            assert(t.subrange(0, 5)[0] == t[0]);
        }
    }
    assert(!starts_with(t, host_word().push('\t'))) by {
        if starts_with(t, host_word().push('\t')) {
            assert(t.subrange(0, 5)[0] == t[0]);
        }
    }
    assert(t.len() == 13 + trim_end(key).len());
}

/// The key's line never reads as a `Host` line.
proof fn lemma_key_line_not_host(key: Seq<char>)
    ensures
        !is_host_line(trim(identity_line(key))),
{
    assert(all_ws(seq![' ', ' ']));
    let y = identity_word() + seq![' '] + key;
    lemma_trim_start_prepend_ws(seq![' ', ' '], y);
    assert(identity_line(key) =~= seq![' ', ' '] + y);
    assert(y[0] == 'I');
    assert(trim_start(y) == y);
    lemma_trim_end_shape(y);
    let t = trim(identity_line(key));
    if t.len() > 0 {
        assert(t[0] == 'I');
    }
    if is_host_line(t) {
        assert(t.subrange(0, 5)[0] == t[0]);
    }
}

/// The line opening a new block reads back as a `Host` line for the trimmed host.
proof fn lemma_new_host_line(host: Seq<char>)
    requires
        !all_ws(host),
    ensures
        is_host_line(trim(new_host_line(host))),
        host_value(trim(new_host_line(host))) == trim(host),
        !is_identity_line(trim(new_host_line(host))),
{
    assert(all_ws(Seq::<char>::empty()));
    assert(new_host_line(host) =~= Seq::<char>::empty() + host_word() + seq![' '] + host);
    lemma_keyword_line(Seq::<char>::empty(), host_word(), host);
    let t = trim(new_host_line(host));
    assert(t.subrange(0, 5) =~= host_word().push(' '));
    assert(t[0] == 'H');
    assert(!is_identity_line(t)) by {
        if is_identity_line(t) {
            assert(t.subrange(0, 13)[0] == t[0]);
        }
    }
}

proof fn lemma_add_keys_line()
    ensures
        !is_host_line(trim(add_keys_line())),
        !is_identity_line(trim(add_keys_line())),
{
    let w = seq!['A', 'd', 'd', 'K', 'e', 'y', 's', 'T', 'o', 'A', 'g', 'e', 'n', 't'];
    let x = seq!['y', 'e', 's'];
    assert(all_ws(seq![' ', ' ']));
    assert(!all_ws(x)) by {
        assert(!is_ws(x[0]));
    }
    assert(add_keys_line() =~= seq![' ', ' '] + w + seq![' '] + x);
    lemma_keyword_line(seq![' ', ' '], w, x);
    let t = trim(add_keys_line());
    assert(t[0] == 'A');
    if is_host_line(t) {
        assert(t.subrange(0, 5)[0] == t[0]);
    }
    if is_identity_line(t) {
        assert(t.subrange(0, 13)[0] == t[0]);
    }
}

proof fn lemma_has_host_block_cons(lines: Seq<Seq<char>>, host: Seq<char>)
    requires
        lines.len() > 0,
    ensures
        has_host_block(lines, host) == (opens_block_of(lines[0], host) || has_host_block(
            lines.drop_first(),
            host,
        )),
{
    let rest = lines.drop_first();
    if has_host_block(lines, host) {
        let i = choose|i: int| 0 <= i < lines.len() && opens_block_of(#[trigger] lines[i], host);
        if i > 0 {
            assert(opens_block_of(rest[i - 1], host));
        }
    }
    if has_host_block(rest, host) {
        let i = choose|i: int| 0 <= i < rest.len() && opens_block_of(#[trigger] rest[i], host);
        assert(opens_block_of(lines[i + 1], host));
    }
    if opens_block_of(lines[0], host) {
        assert(opens_block_of(lines[0], host));
    }
}

/// Inside a block of the host whose key's line is still to come, the
/// detection finds the key's line.
proof fn lemma_detect_rewrite_pending(lines: Seq<Seq<char>>, host: Seq<char>, key: Seq<char>)
    requires
        key_line_reads_back(key),
    ensures
        detect_in_lines(rewrite_lines(lines, host, key, true, true), host, true) == Some(
            trim(key),
        ),
    decreases lines.len(),
{
    let out = rewrite_lines(lines, host, key, true, true);
    let kl = identity_line(key);
    if lines.len() == 0 {
        assert(out == seq![kl]);
        assert(out[0] == kl);
    } else {
        let t = trim(lines[0]);
        let rest = lines.drop_first();
        if is_host_line(t) || is_identity_line(t) {
            assert(out[0] == kl);
        } else {
            lemma_detect_rewrite_pending(rest, host, key);
            assert(out == seq![lines[0]] + rewrite_lines(rest, host, key, true, true));
            assert(out[0] == lines[0]);
            assert(out.drop_first() =~= rewrite_lines(rest, host, key, true, true));
        }
    }
}

/// Outside a block of the host, the detection on the rewritten lines finds
/// the key where the lines have a block of the host, and nothing otherwise.
proof fn lemma_detect_rewrite_outside(lines: Seq<Seq<char>>, host: Seq<char>, key: Seq<char>)
    requires
        key_line_reads_back(key),
    ensures
        detect_in_lines(rewrite_lines(lines, host, key, false, false), host, false) == if has_host_block(
            lines,
            host,
        ) {
            Some(trim(key))
        } else {
            None
        },
    decreases lines.len(),
{
    let out = rewrite_lines(lines, host, key, false, false);
    if lines.len() == 0 {
        assert(!has_host_block(lines, host));
    } else {
        lemma_has_host_block_cons(lines, host);
        let line = lines[0];
        let t = trim(line);
        let rest = lines.drop_first();
        assert(out[0] == line);
        if is_host_line(t) && host_value(t) == host {
            assert(out == seq![line] + rewrite_lines(rest, host, key, true, true));
            assert(out.drop_first() =~= rewrite_lines(rest, host, key, true, true));
            lemma_detect_rewrite_pending(rest, host, key);
        } else {
            assert(out == seq![line] + rewrite_lines(rest, host, key, false, false));
            assert(out.drop_first() =~= rewrite_lines(rest, host, key, false, false));
            lemma_detect_rewrite_outside(rest, host, key);
        }
    }
}

/// Whether the lines leave the detection inside a block of the host.
pub open spec fn in_block_after(lines: Seq<Seq<char>>, host: Seq<char>, in_block: bool) -> bool
    decreases lines.len(),
{
    if lines.len() == 0 {
        in_block
    } else {
        let t = trim(lines[0]);
        if is_host_line(t) {
            in_block_after(lines.drop_first(), host, host_value(t) == host)
        } else {
            in_block_after(lines.drop_first(), host, in_block)
        }
    }
}

/// Detection on two runs of lines: the first finds, or the second does from
/// where the first left off.
proof fn lemma_detect_concat(a: Seq<Seq<char>>, b: Seq<Seq<char>>, host: Seq<char>, in_block: bool)
    ensures
        detect_in_lines(a + b, host, in_block) == match detect_in_lines(a, host, in_block) {
            Some(v) => Some(v),
            None => detect_in_lines(b, host, in_block_after(a, host, in_block)),
        },
    decreases a.len(),
{
    if a.len() == 0 {
        assert(a + b =~= b);
    } else {
        assert((a + b)[0] == a[0]);
        assert((a + b).drop_first() =~= a.drop_first() + b);
        let t = trim(a[0]);
        lemma_detect_concat(a.drop_first(), b, host, in_block);
        if is_host_line(t) {
            lemma_detect_concat(a.drop_first(), b, host, host_value(t) == host);
        }
    }
}

proof fn lemma_no_lf_concat(a: Seq<char>, b: Seq<char>)
    requires
        !has_char(a, '\n'),
        !has_char(b, '\n'),
    ensures
        !has_char(a + b, '\n'),
{
    if has_char(a + b, '\n') {
        let i = choose|i: int| 0 <= i < (a + b).len() && (a + b)[i] == '\n';
        if i < a.len() {
            assert(a[i] == '\n');
        } else {
            assert(b[i - a.len()] == '\n');
        }
    }
}

proof fn lemma_rewrite_no_lf(
    lines: Seq<Seq<char>>,
    host: Seq<char>,
    key: Seq<char>,
    in_block: bool,
    pending: bool,
)
    requires
        forall|i: int| 0 <= i < lines.len() ==> !has_char(#[trigger] lines[i], '\n'),
        !has_char(identity_line(key), '\n'),
    ensures
        forall|i: int|
            0 <= i < rewrite_lines(lines, host, key, in_block, pending).len() ==> !has_char(
                #[trigger] rewrite_lines(lines, host, key, in_block, pending)[i],
                '\n',
            ),
        rewrite_lines(lines, host, key, in_block, pending).len() >= lines.len(),
    decreases lines.len(),
{
    if lines.len() > 0 {
        let rest = lines.drop_first();
        assert forall|i: int| 0 <= i < rest.len() implies !has_char(#[trigger] rest[i], '\n') by {
            assert(rest[i] == lines[i + 1]);
        }
        lemma_rewrite_no_lf(rest, host, key, true, true);
        lemma_rewrite_no_lf(rest, host, key, true, false);
        lemma_rewrite_no_lf(rest, host, key, false, false);
        lemma_rewrite_no_lf(rest, host, key, in_block, pending);
        assert(!has_char(lines[0], '\n'));
    }
}

proof fn lemma_literal_no_lf()
    ensures
        !has_char(seq![' ', ' '] + identity_word() + seq![' '], '\n'),
        !has_char(host_word() + seq![' '], '\n'),
        !has_char(add_keys_line(), '\n'),
        !has_char(Seq::<char>::empty(), '\n'),
{
    let a = seq![' ', ' '] + identity_word() + seq![' '];
    assert(a =~= seq![' ', ' ', 'I', 'd', 'e', 'n', 't', 'i', 't', 'y', 'F', 'i', 'l', 'e', ' ']);
    if has_char(a, '\n') {
        let i = choose|i: int| 0 <= i < a.len() && a[i] == '\n';
        assert(false);
    }
    let b = host_word() + seq![' '];
    assert(b =~= seq!['H', 'o', 's', 't', ' ']);
    if has_char(b, '\n') {
        let i = choose|i: int| 0 <= i < b.len() && b[i] == '\n';
        assert(false);
    }
    let c = add_keys_line();
    if has_char(c, '\n') {
        let i = choose|i: int| 0 <= i < c.len() && c[i] == '\n';
        assert(false);
    }
}

/// The rewritten lines hold no line feed, and there is at least one.
proof fn lemma_rewritten_lines_shape(content: Seq<char>, host: Seq<char>, key: Seq<char>)
    requires
        !has_char(host, '\n'),
        !has_char(key, '\n'),
        has_host_block(raw_lines(content), host) || !all_ws(host),
    ensures
        rewritten_lines(raw_lines(content), host, key).len() > 0,
        forall|i: int|
            0 <= i < rewritten_lines(raw_lines(content), host, key).len() ==> !has_char(
                #[trigger] rewritten_lines(raw_lines(content), host, key)[i],
                '\n',
            ),
{
    let lines = raw_lines(content);
    lemma_raw_lines_no_lf(content);
    lemma_literal_no_lf();
    lemma_no_lf_concat(seq![' ', ' '] + identity_word() + seq![' '], key);
    lemma_no_lf_concat(host_word() + seq![' '], host);
    lemma_rewrite_no_lf(lines, host, key, false, false);
    let body = rewrite_lines(lines, host, key, false, false);
    let r = rewritten_lines(lines, host, key);
    if has_host_block(lines, host) {
        assert(lines.len() > 0);
    } else {
        let sep: Seq<Seq<char>> = if body.len() > 0 && body.last().len() > 0 {
            seq![seq![]]
        } else {
            seq![]
        };
        let app = seq![new_host_line(host), add_keys_line(), identity_line(key)];
        assert(r == body + sep + app);
        assert forall|i: int| 0 <= i < r.len() implies !has_char(#[trigger] r[i], '\n') by {
            if i < body.len() {
                assert(r[i] == body[i]);
            } else if i < body.len() + sep.len() {
                assert(r[i] == Seq::<char>::empty());
            } else {
                assert(r[i] == app[i - body.len() - sep.len()]);
            }
        }
    }
}

/// The appended block, after an optional empty line, as the detection reads it.
proof fn lemma_detect_appended(
    sep: Seq<Seq<char>>,
    host: Seq<char>,
    key: Seq<char>,
    target: Seq<char>,
    in_block: bool,
)
    requires
        sep == Seq::<Seq<char>>::empty() || sep == seq![Seq::<char>::empty()],
        !all_ws(host),
        !is_host_line(trim(identity_line(key))),
    ensures
        trim(host) != target ==> detect_in_lines(
            sep + seq![new_host_line(host), add_keys_line(), identity_line(key)],
            target,
            in_block,
        ) is None,
        trim(host) == target && key_line_reads_back(key) ==> detect_in_lines(
            sep + seq![new_host_line(host), add_keys_line(), identity_line(key)],
            target,
            in_block,
        ) == Some(trim(key)),
{
    let app = seq![new_host_line(host), add_keys_line(), identity_line(key)];
    lemma_empty_line_inert();
    lemma_new_host_line(host);
    lemma_add_keys_line();
    let s2 = seq![add_keys_line(), identity_line(key)];
    let s3 = seq![identity_line(key)];
    assert(app.drop_first() =~= s2);
    assert(s2.drop_first() =~= s3);
    assert(s3.drop_first() =~= Seq::<Seq<char>>::empty());
    let f = trim(host) == target;
    assert(app[0] == new_host_line(host));
    assert(s2[0] == add_keys_line());
    assert(s3[0] == identity_line(key));
    assert(detect_in_lines(s3, target, false) == detect_in_lines(
        Seq::<Seq<char>>::empty(),
        target,
        false,
    ));
    if key_line_reads_back(key) {
        assert(detect_in_lines(s3, target, true) == Some(trim(key)));
    }
    assert(detect_in_lines(s2, target, f) == detect_in_lines(s3, target, f));
    assert(detect_in_lines(app, target, in_block) == detect_in_lines(s2, target, f));
    if sep.len() > 0 {
        assert((sep + app)[0] == Seq::<char>::empty());
        assert((sep + app).drop_first() =~= app);
    } else {
        assert(sep + app =~= app);
    }
}

/// Setting the identity file of a host and reading the configuration back
/// gives that file, trimmed as every `IdentityFile` value is read. The host
/// is a pattern with no surrounding whitespace; neither it nor the key holds
/// a line feed, and the key is not blank.
pub proof fn law_detect_after_rewrite(content: Seq<char>, host: Seq<char>, key: Seq<char>)
    requires
        host.len() > 0,
        trim(host) == host,
        !has_char(host, '\n'),
        !has_char(key, '\n'),
        trim(key).len() > 0,
    ensures
        configured_key(rewritten_config(content, host, key), host) == Some(trim(key)),
{
    assert(!all_ws(host)) by {
        if all_ws(host) {
            lemma_trim_start_all_ws(host);
            lemma_trim_end_all_ws(Seq::<char>::empty());
        }
    }
    assert(!all_ws(key)) by {
        if all_ws(key) {
            lemma_trim_start_all_ws(key);
            lemma_trim_end_all_ws(Seq::<char>::empty());
        }
    }
    lemma_key_line(key);
    let lines = raw_lines(content);
    let r = rewritten_lines(lines, host, key);
    lemma_rewritten_lines_shape(content, host, key);
    lemma_raw_split_join(r);
    lemma_key_line_not_host(key);
    lemma_detect_rewrite_outside(lines, host, key);
    if !has_host_block(lines, host) {
        let body = rewrite_lines(lines, host, key, false, false);
        let sep: Seq<Seq<char>> = if body.len() > 0 && body.last().len() > 0 {
            seq![seq![]]
        } else {
            seq![]
        };
        let app = seq![new_host_line(host), add_keys_line(), identity_line(key)];
        assert(r =~= body + (sep + app));
        lemma_detect_concat(body, sep + app, host, false);
        lemma_detect_appended(sep, host, key, host, in_block_after(body, host, false));
    }
}


/// Outside the blocks of the host, the rewrite changes nothing the detection
/// of another host reads.
proof fn lemma_detect_other_host(
    lines: Seq<Seq<char>>,
    host: Seq<char>,
    key: Seq<char>,
    other: Seq<char>,
    in_block: bool,
    pending: bool,
    other_block: bool,
)
    requires
        host != other,
        pending ==> in_block,
        !(in_block && other_block),
        !is_host_line(trim(identity_line(key))),
    ensures
        detect_in_lines(rewrite_lines(lines, host, key, in_block, pending), other, other_block)
            == detect_in_lines(lines, other, other_block),
    decreases lines.len(),
{
    let out = rewrite_lines(lines, host, key, in_block, pending);
    let kl = identity_line(key);
    if lines.len() == 0 {
        if pending {
            assert(out == seq![kl]);
            assert(out[0] == kl);
            assert(out.drop_first() =~= Seq::<Seq<char>>::empty());
            assert(!other_block);
            assert(detect_in_lines(out.drop_first(), other, false) is None);
            assert(detect_in_lines(out, other, other_block) == detect_in_lines(lines, other, other_block));
        }
        assert(detect_in_lines(out, other, other_block) == detect_in_lines(lines, other, other_block));
    } else {
        let line = lines[0];
        let t = trim(line);
        let rest = lines.drop_first();
        if is_host_line(t) {
            let ib = host_value(t) == host;
            let ob = host_value(t) == other;
            lemma_detect_other_host(rest, host, key, other, ib, ib, ob);
            let rest_out = rewrite_lines(rest, host, key, ib, ib);
            let after = seq![line] + rest_out;
            assert(after[0] == line);
            assert(after.drop_first() =~= rest_out);
            assert(detect_in_lines(after, other, false) == detect_in_lines(rest_out, other, ob));
            assert(detect_in_lines(after, other, other_block) == detect_in_lines(rest_out, other, ob));
            assert(detect_in_lines(lines, other, other_block) == detect_in_lines(rest, other, ob));
            if pending {
                assert(out =~= seq![kl] + after);
                assert(out[0] == kl);
                assert(out.drop_first() =~= after);
                assert(detect_in_lines(out, other, other_block) == detect_in_lines(after, other, other_block));
            } else {
                assert(out =~= after);
            }
        } else if in_block && is_identity_line(t) {
            lemma_detect_other_host(rest, host, key, other, true, false, false);
            assert(out[0] == kl);
            assert(out.drop_first() =~= rewrite_lines(rest, host, key, true, false));
            assert(!other_block);
            assert(detect_in_lines(out, other, other_block) == detect_in_lines(
                rewrite_lines(rest, host, key, true, false),
                other,
                false,
            ));
        } else {
            lemma_detect_other_host(rest, host, key, other, in_block, pending, other_block);
            assert(out[0] == line);
            assert(out.drop_first() =~= rewrite_lines(rest, host, key, in_block, pending));
            assert(detect_in_lines(out, other, other_block) == detect_in_lines(lines, other, other_block));
        }
    }
}

/// Setting the identity file of one host leaves what the configuration sets
/// for every other host unchanged. Neither the host nor the key holds a line
/// feed. Where the configuration has no block of the host, the new block's
/// line reads as a block of the trimmed host: that host, when it is not
/// blank, is not the other one.
pub proof fn law_rewrite_keeps_other_hosts(
    content: Seq<char>,
    host: Seq<char>,
    key: Seq<char>,
    other: Seq<char>,
)
    requires
        host != other,
        !has_char(host, '\n'),
        !has_char(key, '\n'),
        has_host_block(raw_lines(content), host) || (trim(host).len() > 0 && trim(host)
            != other),
    ensures
        configured_key(rewritten_config(content, host, key), other) == configured_key(
            content,
            other,
        ),
{
    let lines = raw_lines(content);
    let r = rewritten_lines(lines, host, key);
    if !has_host_block(lines, host) {
        assert(!all_ws(host)) by {
            if all_ws(host) {
                lemma_trim_start_all_ws(host);
                lemma_trim_end_all_ws(Seq::<char>::empty());
            }
        }
    }
    lemma_rewritten_lines_shape(content, host, key);
    lemma_raw_split_join(r);
    lemma_key_line_not_host(key);
    lemma_detect_other_host(lines, host, key, other, false, false, false);
    if !has_host_block(lines, host) {
        let body = rewrite_lines(lines, host, key, false, false);
        let sep: Seq<Seq<char>> = if body.len() > 0 && body.last().len() > 0 {
            seq![seq![]]
        } else {
            seq![]
        };
        let app = seq![new_host_line(host), add_keys_line(), identity_line(key)];
        assert(r =~= body + (sep + app));
        lemma_detect_concat(body, sep + app, other, false);
        lemma_detect_appended(sep, host, key, other, in_block_after(body, other, false));
    }
}


// ---- rewriting twice ----

/// Rewriting what a rewrite wrote writes it again.
proof fn lemma_rewrite_again(
    lines: Seq<Seq<char>>,
    host: Seq<char>,
    key: Seq<char>,
    in_block: bool,
    pending: bool,
)
    requires
        pending ==> in_block,
        key_line_reads_back(key),
    ensures
        rewrite_lines(rewrite_lines(lines, host, key, in_block, pending), host, key, in_block, pending)
            == rewrite_lines(lines, host, key, in_block, pending),
    decreases lines.len(),
{
    let kl = identity_line(key);
    let out = rewrite_lines(lines, host, key, in_block, pending);
    let e = Seq::<Seq<char>>::empty();
    if lines.len() == 0 {
        if pending {
            assert(out == seq![kl]);
            assert(out[0] == kl);
            assert(out.drop_first() =~= e);
            assert(rewrite_lines(out, host, key, true, true) == seq![kl] + rewrite_lines(
                e,
                host,
                key,
                true,
                false,
            ));
            assert(rewrite_lines(out, host, key, true, true) =~= seq![kl]);
        } else {
            assert(out == e);
        }
    } else {
        let x = lines[0];
        let t = trim(x);
        let rest = lines.drop_first();
        if is_host_line(t) {
            let nb = host_value(t) == host;
            lemma_rewrite_again(rest, host, key, nb, nb);
            let inner = rewrite_lines(rest, host, key, nb, nb);
            let s2 = seq![x] + inner;
            assert(s2[0] == x);
            assert(s2.drop_first() =~= inner);
            assert(rewrite_lines(s2, host, key, in_block, false) == seq![x] + inner);
            if pending {
                assert(out == seq![kl] + seq![x] + inner);
                assert(out =~= seq![kl] + s2);
                assert(out[0] == kl);
                assert(out.drop_first() =~= s2);
                assert(rewrite_lines(out, host, key, true, true) == seq![kl] + rewrite_lines(
                    s2,
                    host,
                    key,
                    true,
                    false,
                ));
                assert(rewrite_lines(out, host, key, true, true) =~= out);
            } else {
                assert(out =~= s2);
            }
        } else if in_block && is_identity_line(t) {
            lemma_rewrite_again(rest, host, key, true, false);
            let inner = rewrite_lines(rest, host, key, true, false);
            assert(out == seq![kl] + inner);
            assert(out[0] == kl);
            assert(out.drop_first() =~= inner);
            assert(rewrite_lines(out, host, key, true, pending) =~= out);
        } else {
            lemma_rewrite_again(rest, host, key, in_block, pending);
            let inner = rewrite_lines(rest, host, key, in_block, pending);
            assert(out == seq![x] + inner);
            assert(out[0] == x);
            assert(out.drop_first() =~= inner);
            assert(rewrite_lines(out, host, key, in_block, pending) =~= out);
        }
    }
}

/// Lines with no block of the host pass through a rewrite unchanged, ahead
/// of whatever follows them.
proof fn lemma_rewrite_no_block_prefix(
    a: Seq<Seq<char>>,
    b: Seq<Seq<char>>,
    host: Seq<char>,
    key: Seq<char>,
)
    requires
        !has_host_block(a, host),
    ensures
        rewrite_lines(a + b, host, key, false, false) == a + rewrite_lines(b, host, key, false, false),
    decreases a.len(),
{
    if a.len() == 0 {
        assert(a + b =~= b);
        assert(a + rewrite_lines(b, host, key, false, false) =~= rewrite_lines(b, host, key, false, false));
    } else {
        lemma_has_host_block_cons(a, host);
        let x = a[0];
        let rest = a.drop_first();
        assert((a + b)[0] == x);
        assert((a + b).drop_first() =~= rest + b);
        lemma_rewrite_no_block_prefix(rest, b, host, key);
        assert(a + rewrite_lines(b, host, key, false, false) =~= seq![x] + (rest + rewrite_lines(
            b,
            host,
            key,
            false,
            false,
        )));
    }
}

/// A block of the host that the lines open survives the rewrite.
proof fn lemma_rewrite_keeps_block(
    lines: Seq<Seq<char>>,
    host: Seq<char>,
    key: Seq<char>,
    in_block: bool,
    pending: bool,
)
    requires
        has_host_block(lines, host),
    ensures
        has_host_block(rewrite_lines(lines, host, key, in_block, pending), host),
    decreases lines.len(),
{
    lemma_has_host_block_cons(lines, host);
    let x = lines[0];
    let t = trim(x);
    let rest = lines.drop_first();
    let out = rewrite_lines(lines, host, key, in_block, pending);
    let tail: Seq<Seq<char>> = if pending { seq![identity_line(key)] } else { seq![] };
    if opens_block_of(x, host) {
        assert(out == tail + seq![x] + rewrite_lines(rest, host, key, true, true));
        assert(out[tail.len() as int] == x);
    } else {
        let (nb, np) = if is_host_line(t) {
            (host_value(t) == host, host_value(t) == host)
        } else if in_block && is_identity_line(t) {
            (true, false)
        } else {
            (in_block, pending)
        };
        lemma_rewrite_keeps_block(rest, host, key, nb, np);
        let inner = rewrite_lines(rest, host, key, nb, np);
        let i = choose|i: int| 0 <= i < inner.len() && opens_block_of(#[trigger] inner[i], host);
        let pre: Seq<Seq<char>> = if is_host_line(t) {
            tail + seq![x]
        } else if in_block && is_identity_line(t) {
            seq![identity_line(key)]
        } else {
            seq![x]
        };
        assert(out == pre + inner);
        assert(out[pre.len() + i] == inner[i]);
    }
}


/// Setting the same identity file for a host a second time changes nothing:
/// rewriting the written configuration writes it again. The host is a
/// pattern with no surrounding whitespace; neither it nor the key holds a
/// line feed, and the key is not blank.
pub proof fn law_rewrite_twice(content: Seq<char>, host: Seq<char>, key: Seq<char>)
    requires
        host.len() > 0,
        trim(host) == host,
        !has_char(host, '\n'),
        !has_char(key, '\n'),
        trim(key).len() > 0,
    ensures
        rewritten_config(rewritten_config(content, host, key), host, key) == rewritten_config(
            content,
            host,
            key,
        ),
{
    assert(!all_ws(host)) by {
        if all_ws(host) {
            lemma_trim_start_all_ws(host);
            lemma_trim_end_all_ws(Seq::<char>::empty());
        }
    }
    assert(!all_ws(key)) by {
        if all_ws(key) {
            lemma_trim_start_all_ws(key);
            lemma_trim_end_all_ws(Seq::<char>::empty());
        }
    }
    lemma_key_line(key);
    let e = Seq::<char>::empty();
    let kl = identity_line(key);
    let lines = raw_lines(content);
    let m = rewritten_lines(lines, host, key);
    lemma_rewritten_lines_shape(content, host, key);
    lemma_raw_split_join(m);
    let t1 = rewritten_config(content, host, key);
    assert(raw_lines(t1) == m);
    if has_host_block(lines, host) {
        assert(m == rewrite_lines(lines, host, key, false, false));
        lemma_rewrite_again(lines, host, key, false, false);
        lemma_rewrite_keeps_block(lines, host, key, false, false);
        assert(rewritten_lines(m, host, key) == m);
    } else {
        lemma_rewrite_no_block_prefix(lines, Seq::<Seq<char>>::empty(), host, key);
        assert(lines + Seq::<Seq<char>>::empty() =~= lines);
        let body = rewrite_lines(lines, host, key, false, false);
        assert(body =~= lines);
        let sep: Seq<Seq<char>> = if body.len() > 0 && body.last().len() > 0 {
            seq![seq![]]
        } else {
            seq![]
        };
        let nh = new_host_line(host);
        let ak = add_keys_line();
        let app = seq![nh, ak, kl];
        let tail = sep + app;
        assert(m == body + sep + app);
        assert(m =~= lines + tail);
        lemma_new_host_line(host);
        lemma_add_keys_line();
        lemma_empty_line_inert();
        assert(opens_block_of(nh, host));
        assert(m[lines.len() + sep.len() as int] == nh);
        assert(has_host_block(m, host));
        lemma_rewrite_no_block_prefix(lines, tail, host, key);
        let s2 = seq![ak, kl];
        let s1 = seq![kl];
        assert(app[0] == nh);
        assert(app.drop_first() =~= s2);
        assert(s2[0] == ak);
        assert(s2.drop_first() =~= s1);
        assert(s1[0] == kl);
        assert(s1.drop_first() =~= Seq::<Seq<char>>::empty());
        assert(rewrite_lines(s1, host, key, true, true) == seq![kl] + rewrite_lines(
            Seq::<Seq<char>>::empty(),
            host,
            key,
            true,
            false,
        ));
        assert(rewrite_lines(s1, host, key, true, true) =~= seq![kl]);
        assert(rewrite_lines(s2, host, key, true, true) =~= seq![ak, kl]);
        assert(rewrite_lines(app, host, key, false, false) =~= app);
        if sep.len() > 0 {
            assert(tail[0] == e);
            assert(tail.drop_first() =~= app);
            assert(rewrite_lines(tail, host, key, false, false) =~= sep + app);
        } else {
            assert(tail =~= app);
        }
        assert(rewritten_lines(m, host, key) =~= m);
    }
}


// ---- lines that a rewrite never touches ----

/// The line is neither a `Host` line nor an `IdentityFile` line: comments,
/// empty lines and every other option.
pub open spec fn is_plain_line(l: Seq<char>) -> bool {
    !is_host_line(trim(l)) && !is_identity_line(trim(l))
}

/// The plain lines, in order.
pub open spec fn plain_lines(lines: Seq<Seq<char>>) -> Seq<Seq<char>>
    decreases lines.len(),
{
    if lines.len() == 0 {
        Seq::<Seq<char>>::empty()
    } else if is_plain_line(lines[0]) {
        seq![lines[0]] + plain_lines(lines.drop_first())
    } else {
        plain_lines(lines.drop_first())
    }
}

proof fn lemma_plain_concat(a: Seq<Seq<char>>, b: Seq<Seq<char>>)
    ensures
        plain_lines(a + b) == plain_lines(a) + plain_lines(b),
    decreases a.len(),
{
    if a.len() == 0 {
        assert(a + b =~= b);
        assert(plain_lines(a) =~= Seq::<Seq<char>>::empty());
        assert(plain_lines(a) + plain_lines(b) =~= plain_lines(b));
    } else {
        assert((a + b)[0] == a[0]);
        assert((a + b).drop_first() =~= a.drop_first() + b);
        lemma_plain_concat(a.drop_first(), b);
        if is_plain_line(a[0]) {
            assert(plain_lines(a + b) =~= plain_lines(a) + plain_lines(b));
        }
    }
}

proof fn lemma_plain_single(x: Seq<char>)
    ensures
        plain_lines(seq![x]) == if is_plain_line(x) {
            seq![x]
        } else {
            Seq::<Seq<char>>::empty()
        },
{
    let s1 = seq![x];
    assert(s1[0] == x);
    assert(s1.drop_first() =~= Seq::<Seq<char>>::empty());
    assert(plain_lines(Seq::<Seq<char>>::empty()) =~= Seq::<Seq<char>>::empty());
    if is_plain_line(x) {
        assert(plain_lines(s1) == seq![x] + plain_lines(s1.drop_first()));
        assert(plain_lines(s1) =~= seq![x]);
    } else {
        assert(plain_lines(s1) == plain_lines(s1.drop_first()));
    }
}

/// Every plain line passes through the rewrite of the lines, in order.
proof fn lemma_rewrite_keeps_plain(
    lines: Seq<Seq<char>>,
    host: Seq<char>,
    key: Seq<char>,
    in_block: bool,
    pending: bool,
)
    requires
        key_line_reads_back(key),
    ensures
        plain_lines(rewrite_lines(lines, host, key, in_block, pending)) == plain_lines(lines),
    decreases lines.len(),
{
    let kl = identity_line(key);
    lemma_plain_single(kl);
    let tail: Seq<Seq<char>> = if pending {
        seq![kl]
    } else {
        seq![]
    };
    assert(plain_lines(tail) =~= Seq::<Seq<char>>::empty());
    let out = rewrite_lines(lines, host, key, in_block, pending);
    if lines.len() == 0 {
        assert(out == tail);
    } else {
        let x = lines[0];
        let t = trim(x);
        let rest = lines.drop_first();
        lemma_plain_single(x);
        assert(lines =~= seq![x] + rest);
        lemma_plain_concat(seq![x], rest);
        if is_host_line(t) {
            let nb = host_value(t) == host;
            lemma_rewrite_keeps_plain(rest, host, key, nb, nb);
            let inner = rewrite_lines(rest, host, key, nb, nb);
            assert(out == tail + seq![x] + inner);
            lemma_plain_concat(tail, seq![x]);
            lemma_plain_concat(tail + seq![x], inner);
        } else if in_block && is_identity_line(t) {
            lemma_rewrite_keeps_plain(rest, host, key, true, false);
            let inner = rewrite_lines(rest, host, key, true, false);
            assert(out == seq![kl] + inner);
            lemma_plain_concat(seq![kl], inner);
        } else {
            lemma_rewrite_keeps_plain(rest, host, key, in_block, pending);
            let inner = rewrite_lines(rest, host, key, in_block, pending);
            assert(out == seq![x] + inner);
            lemma_plain_concat(seq![x], inner);
        }
    }
}

/// Setting a host's identity file keeps every line that is neither a `Host`
/// line nor an `IdentityFile` line (comments, empty lines, other options),
/// byte for byte and in their order: where the host has a block they are
/// exactly the plain lines of the result; otherwise the result's plain
/// lines are those of the configuration followed by the appended block's
/// `AddKeysToAgent yes` line, after an empty line where one separates it.
/// The host and the key hold no line feed and are not blank.
pub proof fn law_rewrite_keeps_plain_lines(content: Seq<char>, host: Seq<char>, key: Seq<char>)
    requires
        trim(host).len() > 0,
        trim(key).len() > 0,
        !has_char(host, '\n'),
        !has_char(key, '\n'),
    ensures
        ({
            let before = plain_lines(raw_lines(content));
            let after = plain_lines(raw_lines(rewritten_config(content, host, key)));
            &&& before.len() <= after.len()
            &&& after.subrange(0, before.len() as int) == before
            &&& has_host_block(raw_lines(content), host) ==> after == before
            &&& !has_host_block(raw_lines(content), host) ==> (after.subrange(
                before.len() as int,
                after.len() as int,
            ) == seq![add_keys_line()] || after.subrange(before.len() as int, after.len() as int)
                == seq![Seq::<char>::empty(), add_keys_line()])
        }),
{
    assert(!all_ws(host)) by {
        if all_ws(host) {
            lemma_trim_start_all_ws(host);
            lemma_trim_end_all_ws(Seq::<char>::empty());
        }
    }
    assert(!all_ws(key)) by {
        if all_ws(key) {
            lemma_trim_start_all_ws(key);
            lemma_trim_end_all_ws(Seq::<char>::empty());
        }
    }
    lemma_key_line(key);
    let lines = raw_lines(content);
    let m = rewritten_lines(lines, host, key);
    lemma_rewritten_lines_shape(content, host, key);
    lemma_raw_split_join(m);
    assert(raw_lines(rewritten_config(content, host, key)) == m);
    lemma_rewrite_keeps_plain(lines, host, key, false, false);
    let before = plain_lines(lines);
    let body = rewrite_lines(lines, host, key, false, false);
    if has_host_block(lines, host) {
        assert(m == body);
        assert(plain_lines(m).subrange(0, before.len() as int) =~= before);
    } else {
        let sep: Seq<Seq<char>> = if body.len() > 0 && body.last().len() > 0 {
            seq![seq![]]
        } else {
            seq![]
        };
        let nh = new_host_line(host);
        let ak = add_keys_line();
        let kl = identity_line(key);
        let app = seq![nh, ak, kl];
        assert(m == body + sep + app);
        lemma_new_host_line(host);
        lemma_add_keys_line();
        lemma_empty_line_inert();
        lemma_plain_single(nh);
        lemma_plain_single(ak);
        lemma_plain_single(kl);
        assert(app =~= seq![nh] + (seq![ak] + seq![kl]));
        lemma_plain_concat(seq![ak], seq![kl]);
        lemma_plain_concat(seq![nh], seq![ak] + seq![kl]);
        assert(plain_lines(app) =~= seq![ak]);
        lemma_plain_concat(body, sep);
        lemma_plain_concat(body + sep, app);
        let extra = plain_lines(sep) + seq![ak];
        if sep.len() > 0 {
            lemma_plain_single(Seq::<char>::empty());
            assert(sep =~= seq![Seq::<char>::empty()]);
            assert(extra =~= seq![Seq::<char>::empty(), ak]);
        } else {
            assert(plain_lines(sep) =~= Seq::<Seq<char>>::empty());
            assert(extra =~= seq![ak]);
        }
        assert(plain_lines(m) == before + extra);
        assert(plain_lines(m).subrange(0, before.len() as int) =~= before);
        assert(plain_lines(m).subrange(before.len() as int, plain_lines(m).len() as int) =~= extra);
    }
}

/// The lines other than the `IdentityFile` lines inside blocks of the host,
/// in order; `in_block`: the lines start inside a block of the host.
pub open spec fn outside_host_keys(lines: Seq<Seq<char>>, host: Seq<char>, in_block: bool) -> Seq<
    Seq<char>,
>
    decreases lines.len(),
{
    if lines.len() == 0 {
        Seq::<Seq<char>>::empty()
    } else {
        let t = trim(lines[0]);
        let rest = lines.drop_first();
        if is_host_line(t) {
            seq![lines[0]] + outside_host_keys(rest, host, host_value(t) == host)
        } else if in_block && is_identity_line(t) {
            outside_host_keys(rest, host, true)
        } else {
            seq![lines[0]] + outside_host_keys(rest, host, in_block)
        }
    }
}

proof fn lemma_rewrite_outside_host_keys(
    lines: Seq<Seq<char>>,
    host: Seq<char>,
    key: Seq<char>,
    in_block: bool,
    pending: bool,
)
    requires
        pending ==> in_block,
        key_line_reads_back(key),
    ensures
        outside_host_keys(rewrite_lines(lines, host, key, in_block, pending), host, in_block)
            == outside_host_keys(lines, host, in_block),
    decreases lines.len(),
{
    let kl = identity_line(key);
    let out = rewrite_lines(lines, host, key, in_block, pending);
    let e = Seq::<Seq<char>>::empty();
    if lines.len() == 0 {
        if pending {
            assert(out == seq![kl]);
            assert(out[0] == kl);
            assert(out.drop_first() =~= e);
            assert(outside_host_keys(out, host, true) == outside_host_keys(e, host, true));
        }
    } else {
        let x = lines[0];
        let t = trim(x);
        let rest = lines.drop_first();
        if is_host_line(t) {
            let nb = host_value(t) == host;
            lemma_rewrite_outside_host_keys(rest, host, key, nb, nb);
            let inner = rewrite_lines(rest, host, key, nb, nb);
            let s2 = seq![x] + inner;
            assert(s2[0] == x);
            assert(s2.drop_first() =~= inner);
            assert(outside_host_keys(s2, host, in_block) == seq![x] + outside_host_keys(inner, host, nb));
            if pending {
                assert(out =~= seq![kl] + s2);
                assert(out[0] == kl);
                assert(out.drop_first() =~= s2);
                assert(outside_host_keys(out, host, true) == outside_host_keys(s2, host, true));
            } else {
                assert(out =~= s2);
            }
        } else if in_block && is_identity_line(t) {
            lemma_rewrite_outside_host_keys(rest, host, key, true, false);
            let inner = rewrite_lines(rest, host, key, true, false);
            assert(out == seq![kl] + inner);
            assert(out[0] == kl);
            assert(out.drop_first() =~= inner);
        } else {
            lemma_rewrite_outside_host_keys(rest, host, key, in_block, pending);
            let inner = rewrite_lines(rest, host, key, in_block, pending);
            assert(out == seq![x] + inner);
            assert(out[0] == x);
            assert(out.drop_first() =~= inner);
        }
    }
}

proof fn lemma_outside_no_block_prefix(a: Seq<Seq<char>>, b: Seq<Seq<char>>, host: Seq<char>)
    requires
        !has_host_block(a, host),
    ensures
        outside_host_keys(a + b, host, false) == outside_host_keys(a, host, false)
            + outside_host_keys(b, host, false),
    decreases a.len(),
{
    if a.len() == 0 {
        assert(a + b =~= b);
        assert(outside_host_keys(a, host, false) =~= Seq::<Seq<char>>::empty());
        assert(outside_host_keys(a, host, false) + outside_host_keys(b, host, false)
            =~= outside_host_keys(b, host, false));
    } else {
        lemma_has_host_block_cons(a, host);
        assert((a + b)[0] == a[0]);
        assert((a + b).drop_first() =~= a.drop_first() + b);
        lemma_outside_no_block_prefix(a.drop_first(), b, host);
        assert(outside_host_keys(a + b, host, false) =~= outside_host_keys(a, host, false)
            + outside_host_keys(b, host, false));
    }
}

/// Setting a host's identity file touches no line but the `IdentityFile`
/// lines inside the host's blocks: every other line (`Host` lines,
/// comments, empty lines, other options, the `IdentityFile` lines of other
/// blocks) comes back byte for byte and in order; where the host has no
/// block, the appended block's `Host` and `AddKeysToAgent` lines follow,
/// after an empty line where one separates them (and its `IdentityFile`
/// line, where the host has surrounding whitespace, so that the new block's
/// pattern is not the host itself). The host and the key hold no line feed
/// and are not blank.
pub proof fn law_rewrite_touches_only_host_keys(content: Seq<char>, host: Seq<char>, key: Seq<char>)
    requires
        trim(host).len() > 0,
        trim(key).len() > 0,
        !has_char(host, '\n'),
        !has_char(key, '\n'),
     ensures
        ({
            let before = outside_host_keys(raw_lines(content), host, false);
            let after = outside_host_keys(raw_lines(rewritten_config(content, host, key)), host, false);
            let own: Seq<Seq<char>> = if trim(host) == host {
                seq![]
            } else {
                seq![identity_line(key)]
            };
            if has_host_block(raw_lines(content), host) {
                after == before
            } else {
                after == before + seq![new_host_line(host), add_keys_line()] + own || after
                    == before + seq![Seq::<char>::empty(), new_host_line(host), add_keys_line()]
                    + own
            }
        }),
{
    assert(!all_ws(host)) by {
        if all_ws(host) {
            lemma_trim_start_all_ws(host);
            lemma_trim_end_all_ws(Seq::<char>::empty());
        }
    }
    assert(!all_ws(key)) by {
        if all_ws(key) {
            lemma_trim_start_all_ws(key);
            lemma_trim_end_all_ws(Seq::<char>::empty());
        }
    }
    lemma_key_line(key);
    let lines = raw_lines(content);
    let m = rewritten_lines(lines, host, key);
    lemma_rewritten_lines_shape(content, host, key);
    lemma_raw_split_join(m);
    assert(raw_lines(rewritten_config(content, host, key)) == m);
    let before = outside_host_keys(lines, host, false);
    if has_host_block(lines, host) {
        lemma_rewrite_outside_host_keys(lines, host, key, false, false);
    } else {
        lemma_rewrite_no_block_prefix(lines, Seq::<Seq<char>>::empty(), host, key);
        assert(lines + Seq::<Seq<char>>::empty() =~= lines);
        let body = rewrite_lines(lines, host, key, false, false);
        assert(body =~= lines);
        let sep: Seq<Seq<char>> = if body.len() > 0 && body.last().len() > 0 {
            seq![seq![]]
        } else {
            seq![]
        };
        let nh = new_host_line(host);
        let ak = add_keys_line();
        let kl = identity_line(key);
        let app = seq![nh, ak, kl];
        let tail = sep + app;
        assert(m =~= lines + tail);
        lemma_outside_no_block_prefix(lines, tail, host);
        lemma_new_host_line(host);
        lemma_add_keys_line();
        lemma_empty_line_inert();
        let s2 = seq![ak, kl];
        let s1 = seq![kl];
        let e = Seq::<Seq<char>>::empty();
        assert(app[0] == nh);
        assert(app.drop_first() =~= s2);
        assert(s2[0] == ak);
        assert(s2.drop_first() =~= s1);
        assert(s1[0] == kl);
        assert(s1.drop_first() =~= e);
        let own: Seq<Seq<char>> = if trim(host) == host {
            seq![]
        } else {
            seq![kl]
        };
        let nb = trim(host) == host;
        assert(host_value(trim(nh)) == trim(host));
        assert(outside_host_keys(e, host, nb) =~= e);
        assert(is_identity_line(trim(kl)) && !is_host_line(trim(kl)));
        if nb {
            assert(outside_host_keys(s1, host, nb) == outside_host_keys(e, host, true));
        } else {
            assert(outside_host_keys(s1, host, nb) == seq![kl] + outside_host_keys(e, host, false));
        }
        assert(outside_host_keys(s1, host, nb) =~= own);
        assert(outside_host_keys(s2, host, nb) =~= seq![ak] + own);
        assert(outside_host_keys(app, host, false) =~= seq![nh, ak] + own);
        if sep.len() > 0 {
            assert(tail[0] == Seq::<char>::empty());
            assert(tail.drop_first() =~= app);
            assert(outside_host_keys(tail, host, false) =~= seq![Seq::<char>::empty(), nh, ak] + own);
        } else {
            assert(tail =~= app);
        }
    }
}

/// The identity file that the SSH configuration sets for the provider's
/// host: none for a provider without a host or where there is no
/// configuration file (`config` is `None`).
pub fn detect_ssh_key_for_host(provider: &str, config: Option<&str>) -> (r: Option<String>)
    ensures
        opt_view(r) == match (provider_host(provider@), config) {
            (Some(h), Some(c)) => configured_key(c@, h),
            _ => None,
        },
{
    let host = match host_for_provider(provider) {
        Some(h) => h,
        None => return None,
    };
    match config {
        Some(c) => configured_identity_file(c, host),
        None => None,
    }
}

// ---- listing key pairs ----

pub open spec fn ends_with(s: Seq<char>, suffix: Seq<char>) -> bool {
    suffix.len() <= s.len() && s.subrange(s.len() - suffix.len(), s.len() as int) == suffix
}

/// A file of `~/.ssh` that may be a private key: not a public key, not one of
/// the files ssh keeps there, not hidden.
pub open spec fn is_key_name(name: Seq<char>) -> bool {
    &&& !ends_with(name, ".pub"@)
    &&& name != "config"@
    &&& name != "known_hosts"@
    &&& name != "known_hosts.old"@
    &&& name != "authorized_keys"@
    &&& !(name.len() > 0 && name[0] == '.')
}

/// The private keys among the files, as `~/.ssh/<name>`, in the files' order:
/// those with a `<name>.pub` beside them.
pub open spec fn key_candidates(files: Seq<Seq<char>>, existing: Seq<Seq<char>>) -> Seq<Seq<char>>
    decreases files.len(),
{
    if files.len() == 0 {
        Seq::<Seq<char>>::empty()
    } else {
        let rest = key_candidates(files.drop_last(), existing);
        let n = files.last();
        if is_key_name(n) && existing.contains(n + ".pub"@) {
            rest.push("~/.ssh/"@ + n)
        } else {
            rest
        }
    }
}

/// Lexicographic order of byte strings, as `[u8]` orders them.
pub open spec fn bytes_le(a: Seq<u8>, b: Seq<u8>) -> bool
    decreases a.len(),
{
    if a.len() == 0 {
        true
    } else if b.len() == 0 {
        false
    } else if a[0] != b[0] {
        a[0] < b[0]
    } else {
        bytes_le(a.drop_first(), b.drop_first())
    }
}

/// The order of `String`s: by their UTF-8 bytes.
pub open spec fn text_le(a: Seq<char>, b: Seq<char>) -> bool {
    bytes_le(encode_utf8(a), encode_utf8(b))
}

pub open spec fn sorted_texts(s: Seq<Seq<char>>) -> bool {
    forall|p: int, q: int| 0 <= p < q < s.len() ==> text_le(#[trigger] s[p], #[trigger] s[q])
}

pub open spec fn strings_view(v: Seq<String>) -> Seq<Seq<char>> {
    v.map_values(|s: String| s@)
}

proof fn lemma_bytes_le_total(a: Seq<u8>, b: Seq<u8>)
    ensures
        bytes_le(a, b) || bytes_le(b, a),
    decreases a.len(),
{
    if a.len() > 0 && b.len() > 0 && a[0] == b[0] {
        lemma_bytes_le_total(a.drop_first(), b.drop_first());
    }
}

proof fn lemma_bytes_le_trans(a: Seq<u8>, b: Seq<u8>, c: Seq<u8>)
    requires
        bytes_le(a, b),
        bytes_le(b, c),
    ensures
        bytes_le(a, c),
    decreases a.len(),
{
    if a.len() > 0 && b.len() > 0 && c.len() > 0 && a[0] == b[0] && b[0] == c[0] {
        lemma_bytes_le_trans(a.drop_first(), b.drop_first(), c.drop_first());
    }
}

fn bytes_le_exec(a: &[u8], b: &[u8]) -> (r: bool)
    ensures
        r == bytes_le(a@, b@),
{
    let mut i: usize = 0;
    assert(a@.subrange(0, a@.len() as int) =~= a@);
    assert(b@.subrange(0, b@.len() as int) =~= b@);
    while i < a.len() && i < b.len() && a[i] == b[i]
        invariant
            i <= a@.len(),
            i <= b@.len(),
            bytes_le(a@, b@) == bytes_le(a@.subrange(i as int, a@.len() as int), b@.subrange(
                i as int,
                b@.len() as int,
            )),
        decreases a@.len() - i,
    {
        let ghost sa = a@.subrange(i as int, a@.len() as int);
        let ghost sb = b@.subrange(i as int, b@.len() as int);
        assert(sa.drop_first() =~= a@.subrange(i + 1, a@.len() as int));
        assert(sb.drop_first() =~= b@.subrange(i + 1, b@.len() as int));
        i = i + 1;
    }
    if i == a.len() {
        true
    } else if i == b.len() {
        false
    } else {
        a[i] < b[i]
    }
}

/// The strings in the order of their bytes, as `Vec::sort` orders `String`s.
pub fn sort_strings(v: &Vec<String>) -> (r: Vec<String>)
    ensures
        sorted_texts(strings_view(r@)),
        strings_view(r@).to_multiset() == strings_view(v@).to_multiset(),
{
    broadcast use vstd::seq_lib::group_to_multiset_ensures;

    let mut out: Vec<String> = Vec::new();
    let mut i: usize = 0;
    assert(strings_view(v@).subrange(0, 0) =~= Seq::<Seq<char>>::empty());
    assert(strings_view(out@) =~= Seq::<Seq<char>>::empty());
    while i < v.len()
        invariant
            i <= v.len(),
            sorted_texts(strings_view(out@)),
            strings_view(out@).to_multiset() == strings_view(v@).subrange(0, i as int).to_multiset(),
        decreases v.len() - i,
    {
        let x = v[i].clone();
        let xb = x.as_str().as_bytes();
        let ghost sv = strings_view(out@);
        let mut j: usize = 0;
        while j < out.len() && bytes_le_exec(out[j].as_str().as_bytes(), xb)
            invariant
                sv == strings_view(out@),
                xb@ == encode_utf8(x@),
                j <= out.len(),
                forall|k: int| 0 <= k < j ==> text_le(#[trigger] sv[k], x@),
            decreases out.len() - j,
        {
            j = j + 1;
        }
        proof {
            if j < out.len() {
                lemma_bytes_le_total(encode_utf8(sv[j as int]), encode_utf8(x@));
                assert(text_le(x@, sv[j as int]));
            }
        }
        out.insert(j, x);
        let ghost nv = strings_view(out@);
        assert(nv =~= sv.insert(j as int, v@[i as int]@));
        assert forall|p: int, q: int| 0 <= p < q < nv.len() implies text_le(
            #[trigger] nv[p],
            #[trigger] nv[q],
        ) by {
            if q < j {
                assert(nv[p] == sv[p] && nv[q] == sv[q]);
            } else if q == j {
                assert(nv[p] == sv[p]);
            } else if p == j {
                assert(nv[q] == sv[q - 1]);
                if q - 1 > j {
                    assert(text_le(sv[j as int], sv[q - 1]));
                    lemma_bytes_le_trans(
                        encode_utf8(x@),
                        encode_utf8(sv[j as int]),
                        encode_utf8(sv[q - 1]),
                    );
                }
            } else if p > j {
                assert(nv[p] == sv[p - 1] && nv[q] == sv[q - 1]);
            } else {
                assert(nv[p] == sv[p] && nv[q] == sv[q - 1]);
            }
        }
        assert(strings_view(v@).subrange(0, i + 1) =~= strings_view(v@).subrange(0, i as int).push(
            v@[i as int]@,
        ));
        proof {
            let prefix = strings_view(v@).subrange(0, i as int);
            vstd::seq_lib::to_multiset_insert(sv, j as int, v@[i as int]@);
            vstd::seq_lib::to_multiset_build(prefix, v@[i as int]@);
            assert(nv.to_multiset() == prefix.push(v@[i as int]@).to_multiset());
        }
        i = i + 1;
    }
    assert(strings_view(v@).subrange(0, i as int) =~= strings_view(v@));
    out
}


fn ends_with_exec(s: &Vec<char>, suffix: &Vec<char>) -> (r: bool)
    ensures
        r == ends_with(s@, suffix@),
{
    if suffix.len() > s.len() {
        return false;
    }
    let off = s.len() - suffix.len();
    let mut i: usize = 0;
    while i < suffix.len()
        invariant
            off == s.len() - suffix.len(),
            i <= suffix.len(),
            forall|k: int| 0 <= k < i ==> s@[off + k] == suffix@[k],
        decreases suffix.len() - i,
    {
        if s[off + i] != suffix[i] {
            assert(s@.subrange(off as int, s@.len() as int)[i as int] != suffix@[i as int]);
            return false;
        }
        i = i + 1;
    }
    assert(s@.subrange(off as int, s@.len() as int) =~= suffix@);
    true
}

fn text_is(s: &String, lit: &str) -> (r: bool)
    ensures
        r == (s@ == lit@),
{
    *s == String::from_str(lit)
}

fn is_key_name_exec(name: &String) -> (r: bool)
    ensures
        r == is_key_name(name@),
{
    let c = chars_of(name.as_str());
    let pub_suffix = chars_of(".pub");
    if ends_with_exec(&c, &pub_suffix) {
        return false;
    }
    if text_is(name, "config") || text_is(name, "known_hosts") || text_is(name, "known_hosts.old")
        || text_is(name, "authorized_keys") {
        return false;
    }
    !(c.len() > 0 && c[0] == '.')
}

fn contains_text(v: &Vec<String>, t: &String) -> (r: bool)
    ensures
        r == strings_view(v@).contains(t@),
{
    let mut i: usize = 0;
    while i < v.len()
        invariant
            i <= v.len(),
            forall|k: int| 0 <= k < i ==> v@[k]@ != t@,
        decreases v.len() - i,
    {
        if v[i] == *t {
            assert(strings_view(v@)[i as int] == t@);
            return true;
        }
        i = i + 1;
    }
    proof {
        if strings_view(v@).contains(t@) {
            let k = choose|k: int| 0 <= k < strings_view(v@).len() && strings_view(v@)[k] == t@;
            assert(v@[k]@ != t@);
        }
    }
    false
}

/// The private keys in `~/.ssh`, as `~/.ssh/<name>`, sorted: those of the
/// regular `files` that are not public keys, not `config`, `known_hosts`,
/// `known_hosts.old` or `authorized_keys`, not hidden, and have a
/// `<name>.pub` among the `existing` entries.
pub fn list_ssh_keys(files: &Vec<String>, existing: &Vec<String>) -> (r: Vec<String>)
    ensures
        sorted_texts(strings_view(r@)),
        strings_view(r@).to_multiset() == key_candidates(
            strings_view(files@),
            strings_view(existing@),
        ).to_multiset(),
{
    let mut keys: Vec<String> = Vec::new();
    let mut i: usize = 0;
    assert(strings_view(files@).subrange(0, 0) =~= Seq::<Seq<char>>::empty());
    assert(strings_view(keys@) =~= Seq::<Seq<char>>::empty());
    while i < files.len()
        invariant
            i <= files.len(),
            strings_view(keys@) == key_candidates(
                strings_view(files@).subrange(0, i as int),
                strings_view(existing@),
            ),
        decreases files.len() - i,
    {
        let name = &files[i];
        let ghost before = strings_view(keys@);
        let ghost pre = strings_view(files@).subrange(0, i + 1);
        assert(pre.drop_last() =~= strings_view(files@).subrange(0, i as int));
        assert(pre.last() == name@);
        if is_key_name_exec(name) {
            let mut pub_name = name.clone();
            pub_name.append(".pub");
            if contains_text(existing, &pub_name) {
                let mut entry = String::from_str("~/.ssh/");
                entry.append(name.as_str());
                keys.push(entry);
                assert(strings_view(keys@) =~= before.push("~/.ssh/"@ + name@));
            }
        }
        i = i + 1;
    }
    assert(strings_view(files@).subrange(0, i as int) =~= strings_view(files@));
    sort_strings(&keys)
}

/// The SSH output, lower-cased, reports a successful key authentication:
/// it says `authenticated`, `logged in as`, or `successfully authenticated`.
pub open spec fn reports_authenticated(s: Seq<char>) -> bool {
    has_substring(s, "authenticated"@) || has_substring(s, "logged in as"@) || has_substring(
        s,
        "successfully authenticated"@,
    )
}

pub open spec fn has_substring(s: Seq<char>, p: Seq<char>) -> bool {
    exists|i: int| 0 <= i && i + p.len() <= s.len() && #[trigger] s.subrange(i, i + p.len()) == p
}

fn has_substring_exec(s: &Vec<char>, p: &Vec<char>) -> (r: bool)
    ensures
        r == has_substring(s@, p@),
{
    if p.len() > s.len() {
        proof {
            if has_substring(s@, p@) {
                let i = choose|i: int|
                    0 <= i && i + p@.len() <= s@.len() && #[trigger] s@.subrange(i, i + p@.len())
                        == p@;
            }
        }
        return false;
    }
    let mut i: usize = 0;
    while i <= s.len() - p.len()
        invariant
            p.len() <= s.len(),
            i <= s.len() - p.len() + 1,
            forall|k: int| 0 <= k < i ==> #[trigger] s@.subrange(k, k + p@.len()) != p@,
        decreases s.len() - p.len() + 1 - i,
    {
        let mut j: usize = 0;
        let mut same = true;
        while j < p.len()
            invariant
                p.len() <= s.len(),
                i <= s.len() - p.len(),
                j <= p.len(),
                same == forall|k: int| 0 <= k < j ==> s@[i + k] == p@[k],
            decreases p.len() - j,
        {
            if s[i + j] != p[j] {
                same = false;
            }
            j = j + 1;
        }
        if same {
            assert(s@.subrange(i as int, i + p@.len()) =~= p@);
            return true;
        }
        assert(s@.subrange(i as int, i + p@.len()) != p@) by {
            let k = choose|k: int| 0 <= k < p@.len() && s@[i + k] != p@[k];
            assert(s@.subrange(i as int, i + p@.len())[k] == s@[i + k]);
        }
        i = i + 1;
    }
    false
}

/// Whether the lower-cased SSH output reports that the key authenticated.
/// GitHub and Bitbucket both end `ssh -T` with exit status 1, since they
/// allow no shell, so the text decides.
pub fn ssh_output_reports_success(lowered: &str) -> (r: bool)
    ensures
        r == reports_authenticated(lowered@),
{
    let s = chars_of(lowered);
    has_substring_exec(&s, &chars_of("authenticated")) || has_substring_exec(
        &s,
        &chars_of("logged in as"),
    ) || has_substring_exec(&s, &chars_of("successfully authenticated"))
}

/// The lower-case form of a text, as `str::to_lowercase` gives it.
pub uninterp spec fn lowercase(s: Seq<char>) -> Seq<char>;

/// `str::to_lowercase`: the text with each character mapped to its Unicode
/// lower-case form. The mapping is Unicode's, named here and not written out.
#[verifier::external_body]
fn to_lowercase(s: &str) -> (r: String)
    ensures
        r@ == lowercase(s@),
{
    s.to_lowercase()
}

/// Whether the output of `ssh -T git@<host>` reports that the key
/// authenticated: standard output and standard error, lower-cased and
/// joined by a space, are tested.
pub fn ssh_connection_succeeded(stdout: &str, stderr: &str) -> (r: bool)
    ensures
        r == reports_authenticated(lowercase(stdout@) + " "@ + lowercase(stderr@)),
{
    let mut combined = to_lowercase(stdout);
    combined.append(" ");
    let err = to_lowercase(stderr);
    combined.append(err.as_str());
    ssh_output_reports_success(combined.as_str())
}

} // verus!
