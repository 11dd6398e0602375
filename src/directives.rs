//! Directives with an argument: `{ include "path" }`, `{ group "path" }`
//! (a double-quoted path) and `{ tags '...' }`, `{ pages '...' }` (a single-quoted
//! markup fragment that ends on its own line).
use vstd::prelude::*;
use crate::text::{
    append, append_range, chars_of, has_at, has_at_exec, skip_ws, skip_ws_exec,
};

verus! {

/// The first index at or after `i` holding `c`, or the length of `t`.
pub open spec fn find_char(t: Seq<char>, i: int, c: char) -> int
    decreases t.len() - i,
{
    if i < 0 || i >= t.len() {
        if i < 0 { 0 } else { i }
    } else if t[i] == c {
        i
    } else {
        find_char(t, i + 1, c)
    }
}

pub proof fn lemma_find_char(t: Seq<char>, i: int, c: char)
    requires
        0 <= i <= t.len(),
    ensures
        i <= find_char(t, i, c) <= t.len(),
        forall|k: int| i <= k < find_char(t, i, c) ==> #[trigger] t[k] != c,
        find_char(t, i, c) < t.len() ==> t[find_char(t, i, c)] == c,
    decreases t.len() - i,
{
    if i < t.len() && t[i] != c {
        lemma_find_char(t, i + 1, c);
    }
}

/// A `{ kw "path" }` directive at `i`: the bounds of the path and the end of the directive.
pub open spec fn quoted_at(t: Seq<char>, i: int, kw: Seq<char>) -> Option<(int, int, int)> {
    if 0 <= i < t.len() && t[i] == '{' {
        let a = skip_ws(t, i + 1);
        let b = a + kw.len();
        let c = skip_ws(t, b);
        if has_at(t, a, kw) && c > b && c < t.len() && t[c] == '"' {
            let q = find_char(t, c + 1, '"');
            let e = skip_ws(t, q + 1);
            if q > c + 1 && q < t.len() && e < t.len() && t[e] == '}' {
                Some((c + 1, q, e + 1))
            } else {
                None
            }
        } else {
            None
        }
    } else {
        None
    }
}

/// Where a matched directive ends.
pub open spec fn directive_end(m: Option<(int, int, int)>) -> int {
    match m {
        Some(v) => v.2,
        None => 0,
    }
}

/// A match that ends after `i` and within the text.
pub open spec fn advances(m: Option<(int, int, int)>, i: int, len: int) -> bool {
    m is Some && i < directive_end(m) <= len
}

/// Lookup key of a directive's path: paths name files under the site root,
/// with or without a leading `/`.
pub open spec fn file_key(p: Seq<char>) -> Seq<char> {
    if p.len() > 0 && p[0] == '/' {
        p.subrange(1, p.len() as int)
    } else {
        p
    }
}

/// The text of the first entry of `files` whose name is `key`.
pub open spec fn lookup(files: Seq<(Seq<char>, Seq<char>)>, key: Seq<char>) -> Option<Seq<char>>
    decreases files.len(),
{
    if files.len() == 0 {
        None
    } else if files[0].0 == key {
        Some(files[0].1)
    } else {
        lookup(files.subrange(1, files.len() as int), key)
    }
}

/// Prepends `out` to a successful result.
pub open spec fn prefixed(out: Seq<char>, r: Result<Seq<char>, Seq<char>>) -> Result<
    Seq<char>,
    Seq<char>,
> {
    match r {
        Ok(s) => Ok(out + s),
        Err(e) => Err(e),
    }
}

/// `t[i..]` with every `{ kw "path" }` directive replaced by the text of the file
/// it names (when `active`), or removed (when not). The first missing file is the error.
pub open spec fn expand_from(
    t: Seq<char>,
    i: int,
    kw: Seq<char>,
    files: Seq<(Seq<char>, Seq<char>)>,
    active: bool,
) -> Result<Seq<char>, Seq<char>>
    decreases t.len() - i,
{
    if i < 0 || i >= t.len() {
        Ok(seq![])
    } else if advances(quoted_at(t, i, kw), i, t.len() as int) {
        let (ps, pe, e) = quoted_at(t, i, kw)->0;
        let key = file_key(t.subrange(ps, pe));
        if !active {
            expand_from(t, e, kw, files, active)
        } else {
            match lookup(files, key) {
                Some(body) => prefixed(body, expand_from(t, e, kw, files, active)),
                None => Err(key),
            }
        }
    } else {
        prefixed(seq![t[i]], expand_from(t, i + 1, kw, files, active))
    }
}

/// A source file known to the renderer: its path under the site root and its text.
pub struct SourceFile {
    pub path: String,
    pub text: String,
}

pub open spec fn files_view(files: Seq<SourceFile>) -> Seq<(Seq<char>, Seq<char>)> {
    files.map_values(|f: SourceFile| (f.path@, f.text@))
}

pub fn quoted_at_exec(t: &Vec<char>, i: usize, kw: &Vec<char>) -> (r: Option<(usize, usize, usize)>)
    requires
        i <= t@.len(),
    ensures
        r matches Some(v) ==> quoted_at(t@, i as int, kw@) == Some(
            (v.0 as int, v.1 as int, v.2 as int),
        ) && i < v.0 <= v.1 < v.2 <= t@.len(),
        r is None ==> quoted_at(t@, i as int, kw@) is None,
{
    if i >= t.len() || t[i] != '{' {
        return None;
    }
    let a = skip_ws_exec(t, i + 1);
    if !has_at_exec(t, a, kw) {
        return None;
    }
    let b = a + kw.len();
    let c = skip_ws_exec(t, b);
    if !(c > b && c < t.len() && t[c] == '"') {
        return None;
    }
    let q = find_char_exec(t, c + 1, '"');
    if !(q > c + 1 && q < t.len()) {
        return None;
    }
    let e = skip_ws_exec(t, q + 1);
    if e < t.len() && t[e] == '}' {
        Some((c + 1, q, e + 1))
    } else {
        None
    }
}

pub fn find_char_exec(t: &Vec<char>, i: usize, c: char) -> (r: usize)
    requires
        i <= t@.len(),
    ensures
        r == find_char(t@, i as int, c),
        i <= r <= t@.len(),
{
    proof {
        lemma_find_char(t@, i as int, c);
    }
    let mut k: usize = i;
    while k < t.len() && t[k] != c
        invariant
            i <= k <= t@.len(),
            find_char(t@, k as int, c) == find_char(t@, i as int, c),
        decreases t@.len() - k,
    {
        k += 1;
    }
    k
}

pub fn file_key_exec(p: &Vec<char>) -> (r: Vec<char>)
    ensures
        r@ == file_key(p@),
{
    if p.len() > 0 && p[0] == '/' {
        let mut r: Vec<char> = Vec::new();
        append_range(&mut r, p, 1, p.len());
        r
    } else {
        p.clone()
    }
}

pub fn lookup_exec(files: &Vec<SourceFile>, key: &Vec<char>) -> (r: Option<Vec<char>>)
    ensures
        r matches Some(v) ==> lookup(files_view(files@), key@) == Some(v@),
        r is None ==> lookup(files_view(files@), key@) is None,
{
    let mut k: usize = 0;
    assert(files_view(files@).subrange(0, files@.len() as int) =~= files_view(files@));
    while k < files.len()
        invariant
            k <= files@.len(),
            lookup(files_view(files@), key@) == lookup(
                files_view(files@).subrange(k as int, files@.len() as int),
                key@,
            ),
        decreases files@.len() - k,
    {
        let ghost rest = files_view(files@).subrange(k as int, files@.len() as int);
        assert(rest.subrange(1, rest.len() as int) =~= files_view(files@).subrange(
            k + 1,
            files@.len() as int,
        ));
        let name = chars_of(files[k].path.as_str());
        if vec_eq(&name, key) {
            return Some(chars_of(files[k].text.as_str()));
        }
        k += 1;
    }
    None
}

pub fn vec_eq(a: &Vec<char>, b: &Vec<char>) -> (r: bool)
    ensures
        r == (a@ == b@),
{
    if a.len() != b.len() {
        return false;
    }
    let mut k: usize = 0;
    while k < a.len()
        invariant
            a@.len() == b@.len(),
            k <= a@.len(),
            forall|j: int| 0 <= j < k ==> a@[j] == b@[j],
        decreases a@.len() - k,
    {
        if a[k] != b[k] {
            return false;
        }
        k += 1;
    }
    assert(a@ =~= b@);
    true
}

/// Replaces every `{ kw "path" }` directive of `t` by the text of the file it names
/// (when `active`) or by nothing (when not). Returns the first missing file's key.
pub fn expand_directives(t: &Vec<char>, kw: &Vec<char>, files: &Vec<SourceFile>, active: bool) -> (r:
    Result<Vec<char>, Vec<char>>)
    ensures
        r matches Ok(v) ==> expand_from(t@, 0, kw@, files_view(files@), active) == Ok::<
            Seq<char>,
            Seq<char>,
        >(v@),
        r matches Err(k) ==> expand_from(t@, 0, kw@, files_view(files@), active) == Err::<
            Seq<char>,
            Seq<char>,
        >(k@),
{
    let ghost fv = files_view(files@);
    let mut out: Vec<char> = Vec::new();
    let mut i: usize = 0;
    while i < t.len()
        invariant
            i <= t@.len(),
            fv == files_view(files@),
            prefixed(out@, expand_from(t@, i as int, kw@, fv, active)) == expand_from(
                t@,
                0,
                kw@,
                fv,
                active,
            ),
        decreases t@.len() - i,
    {
        match quoted_at_exec(t, i, kw) {
            Some((ps, pe, e)) => {
                let mut path: Vec<char> = Vec::new();
                append_range(&mut path, t, ps, pe);
                let key = file_key_exec(&path);
                if active {
                    match lookup_exec(files, &key) {
                        Some(body) => {
                            let ghost before = out@;
                            append(&mut out, &body);
                            assert(prefixed(out@, expand_from(t@, e as int, kw@, fv, active))
                                == prefixed(
                                before,
                                prefixed(body@, expand_from(t@, e as int, kw@, fv, active)),
                            )) by {
                                match expand_from(t@, e as int, kw@, fv, active) {
                                    Ok(s) => {
                                        assert(before + (body@ + s) =~= out@ + s);
                                    },
                                    Err(_) => {},
                                }
                            }
                        },
                        None => {
                            return Err(key);
                        },
                    }
                }
                i = e;
            },
            None => {
                let ghost before = out@;
                out.push(t[i]);
                assert(prefixed(out@, expand_from(t@, i + 1, kw@, fv, active)) == prefixed(
                    before,
                    prefixed(seq![t@[i as int]], expand_from(t@, i + 1, kw@, fv, active)),
                )) by {
                    match expand_from(t@, i + 1, kw@, fv, active) {
                        Ok(s) => {
                            assert(before + (seq![t@[i as int]] + s) =~= out@ + s);
                        },
                        Err(_) => {},
                    }
                }
                i += 1;
            },
        }
    }
    assert(out@ + seq![] =~= out@);
    Ok(out)
}

/// A `'` at `k` followed by optional whitespace and `}`.
pub open spec fn closes_at(t: Seq<char>, k: int) -> bool {
    0 <= k < t.len() && t[k] == '\'' && skip_ws(t, k + 1) < t.len() && t[skip_ws(t, k + 1)] == '}'
}

/// The last index `q` in `lo..k` at which the fragment can be closed.
pub open spec fn last_close(t: Seq<char>, lo: int, k: int) -> Option<int>
    decreases k - lo,
{
    if k <= lo {
        None
    } else if closes_at(t, k - 1) {
        Some(k - 1)
    } else {
        last_close(t, lo, k - 1)
    }
}

/// A `{ kw '...' }` block at `i`: the bounds of the fragment and the end of the block.
/// The fragment stays on one line and runs to the last closing quote on it.
pub open spec fn block_at(t: Seq<char>, i: int, kw: Seq<char>) -> Option<(int, int, int)> {
    if 0 <= i < t.len() && t[i] == '{' {
        let a = skip_ws(t, i + 1);
        let b = a + kw.len();
        let c = skip_ws(t, b);
        if has_at(t, a, kw) && c > b && c < t.len() && t[c] == '\'' {
            match last_close(t, c + 1, find_char(t, c + 1, '\n')) {
                Some(q) => Some((c + 1, q, skip_ws(t, q + 1) + 1)),
                None => None,
            }
        } else {
            None
        }
    } else {
        None
    }
}

/// `s` written `n` times.
pub open spec fn repeat(s: Seq<char>, n: nat) -> Seq<char>
    decreases n,
{
    if n == 0 {
        seq![]
    } else {
        repeat(s, (n - 1) as nat) + s
    }
}

/// What a block is replaced by: `fixed` if given, else its own fragment `n` times.
pub open spec fn block_text(fragment: Seq<char>, n: nat, fixed: Option<Seq<char>>) -> Seq<char> {
    match fixed {
        Some(r) => r,
        None => repeat(fragment, n),
    }
}

/// `t[i..]` with every `{ kw '...' }` block replaced (see `block_text`).
pub open spec fn blocks_from(t: Seq<char>, i: int, kw: Seq<char>, n: nat, fixed: Option<Seq<char>>) -> Seq<
    char,
>
    decreases t.len() - i,
{
    if i < 0 || i >= t.len() {
        seq![]
    } else if advances(block_at(t, i, kw), i, t.len() as int) {
        let v = block_at(t, i, kw)->0;
        block_text(t.subrange(v.0, v.1), n, fixed) + blocks_from(t, v.2, kw, n, fixed)
    } else {
        seq![t[i]] + blocks_from(t, i + 1, kw, n, fixed)
    }
}

/// The first `{ kw '...' }` block in `t[i..]`.
pub open spec fn first_block_from(t: Seq<char>, i: int, kw: Seq<char>) -> Option<(int, int, int)>
    decreases t.len() - i,
{
    if i < 0 || i >= t.len() {
        None
    } else if block_at(t, i, kw) is Some {
        block_at(t, i, kw)
    } else {
        first_block_from(t, i + 1, kw)
    }
}

pub fn closes_at_exec(t: &Vec<char>, k: usize) -> (r: bool)
    ensures
        r == closes_at(t@, k as int),
{
    if k >= t.len() || t[k] != '\'' {
        return false;
    }
    let e = skip_ws_exec(t, k + 1);
    e < t.len() && t[e] == '}'
}

#[verifier::loop_isolation(false)]
pub fn block_at_exec(t: &Vec<char>, i: usize, kw: &Vec<char>) -> (r: Option<(usize, usize, usize)>)
    requires
        i <= t@.len(),
    ensures
        r matches Some(v) ==> block_at(t@, i as int, kw@) == Some(
            (v.0 as int, v.1 as int, v.2 as int),
        ) && i < v.0 <= v.1 < v.2 <= t@.len(),
        r is None ==> block_at(t@, i as int, kw@) is None,
{
    if i >= t.len() || t[i] != '{' {
        return None;
    }
    let a = skip_ws_exec(t, i + 1);
    if !has_at_exec(t, a, kw) {
        return None;
    }
    let b = a + kw.len();
    let c = skip_ws_exec(t, b);
    if !(c > b && c < t.len() && t[c] == '\'') {
        return None;
    }
    let ms = c + 1;
    let le = find_char_exec(t, ms, '\n');
    let mut k: usize = le;
    while k > ms
        invariant
            ms <= k <= le <= t@.len(),
            last_close(t@, ms as int, k as int) == last_close(t@, ms as int, le as int),
        decreases k,
    {
        if closes_at_exec(t, k - 1) {
            let e = skip_ws_exec(t, k);
            assert(closes_at(t@, k - 1));
            assert(e == skip_ws(t@, (k - 1) + 1));
            assert(e < t.len());
            assert(last_close(t@, ms as int, k as int) == Some((k - 1) as int));
            return Some((ms, k - 1, e + 1));
        }
        k -= 1;
    }
    None
}

pub fn repeat_exec(s: &Vec<char>, n: usize) -> (r: Vec<char>)
    ensures
        r@ == repeat(s@, n as nat),
{
    let mut out: Vec<char> = Vec::new();
    let mut k: usize = 0;
    while k < n
        invariant
            k <= n,
            out@ == repeat(s@, k as nat),
        decreases n - k,
    {
        append(&mut out, s);
        k += 1;
    }
    out
}

/// Replaces every `{ kw '...' }` block of `t` by `fixed` if given, else by its
/// own fragment written `n` times.
pub fn replace_blocks(t: &Vec<char>, kw: &Vec<char>, n: usize, fixed: &Option<Vec<char>>) -> (r: Vec<char>)
    ensures
        r@ == blocks_from(t@, 0, kw@, n as nat, opt_view(*fixed)),
{
    let ghost fx = opt_view(*fixed);
    let mut out: Vec<char> = Vec::new();
    let mut i: usize = 0;
    while i < t.len()
        invariant
            i <= t@.len(),
            fx == opt_view(*fixed),
            out@ + blocks_from(t@, i as int, kw@, n as nat, fx) == blocks_from(t@, 0, kw@, n as nat, fx),
        decreases t@.len() - i,
    {
        match block_at_exec(t, i, kw) {
            Some((ms, me, e)) => {
                let rep = match fixed {
                    Some(f) => f.clone(),
                    None => {
                        let mut frag: Vec<char> = Vec::new();
                        append_range(&mut frag, t, ms, me);
                        repeat_exec(&frag, n)
                    },
                };
                let ghost before = out@;
                append(&mut out, &rep);
                assert(before + (rep@ + blocks_from(t@, e as int, kw@, n as nat, fx)) =~= out@
                    + blocks_from(t@, e as int, kw@, n as nat, fx));
                i = e;
            },
            None => {
                let ghost before = out@;
                out.push(t[i]);
                assert(before + (seq![t@[i as int]] + blocks_from(t@, i + 1, kw@, n as nat, fx))
                    =~= out@ + blocks_from(t@, i + 1, kw@, n as nat, fx));
                i += 1;
            },
        }
    }
    assert(out@ + seq![] =~= out@);
    out
}

/// The view of an optional character vector.
pub open spec fn opt_view(o: Option<Vec<char>>) -> Option<Seq<char>> {
    match o {
        Some(v) => Some(v@),
        None => None,
    }
}

/// The fragment of the first `{ kw '...' }` block of `t`.
pub fn first_block_fragment(t: &Vec<char>, kw: &Vec<char>) -> (r: Option<Vec<char>>)
    ensures
        r matches Some(f) ==> first_block_from(t@, 0, kw@) matches Some(v) && f@ == t@.subrange(
            v.0,
            v.1,
        ),
        r is None ==> first_block_from(t@, 0, kw@) is None,
{
    let mut i: usize = 0;
    while i < t.len()
        invariant
            i <= t@.len(),
            first_block_from(t@, i as int, kw@) == first_block_from(t@, 0, kw@),
        decreases t@.len() - i,
    {
        match block_at_exec(t, i, kw) {
            Some((ms, me, _e)) => {
                let mut frag: Vec<char> = Vec::new();
                append_range(&mut frag, t, ms, me);
                return Some(frag);
            },
            None => {},
        }
        i += 1;
    }
    None
}

/// No `{ kw "path" }` directive starts anywhere in `t`.
pub open spec fn no_directive(t: Seq<char>, kw: Seq<char>) -> bool {
    forall|i: int| 0 <= i < t.len() ==> #[trigger] quoted_at(t, i, kw) is None
}

pub proof fn lemma_expand_plain(t: Seq<char>, i: int, kw: Seq<char>, files: Seq<(Seq<char>, Seq<char>)>, active: bool)
    requires
        0 <= i <= t.len(),
        no_directive(t, kw),
    ensures
        expand_from(t, i, kw, files, active) == Ok::<Seq<char>, Seq<char>>(t.subrange(i, t.len() as int)),
    decreases t.len() - i,
{
    if i < t.len() {
        assert(quoted_at(t, i, kw) is None);
        lemma_expand_plain(t, i + 1, kw, files, active);
        assert(seq![t[i]] + t.subrange(i + 1, t.len() as int) =~= t.subrange(i, t.len() as int));
    } else {
        assert(t.subrange(i, t.len() as int) =~= seq![]);
    }
}

/// Expansion is idempotent once it has reached its fixpoint: text without
/// directives (what a finished expansion leaves) expands to itself, and a pass
/// that changed nothing changes nothing when run again.
pub proof fn lemma_expand_fixpoint(t: Seq<char>, kw: Seq<char>, files: Seq<(Seq<char>, Seq<char>)>)
    ensures
        no_directive(t, kw) ==> expand_from(t, 0, kw, files, true) == Ok::<Seq<char>, Seq<char>>(t),
        expand_from(t, 0, kw, files, true) == Ok::<Seq<char>, Seq<char>>(t) ==> expand_from(
            expand_from(t, 0, kw, files, true)->Ok_0,
            0,
            kw,
            files,
            true,
        ) == expand_from(t, 0, kw, files, true),
{
    if no_directive(t, kw) {
        lemma_expand_plain(t, 0, kw, files, true);
        assert(t.subrange(0, t.len() as int) =~= t);
    }
}

} // verus!
