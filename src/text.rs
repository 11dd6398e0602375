//! Character-level helpers shared by the template scanners: conversions
//! between strings and character vectors, whitespace, and the
//! `{ name }` placeholder token with its replace-all / replace-first passes.
use vstd::prelude::*;

verus! {

/// Unicode `White_Space` characters (what `\s` matches in a Unicode regex and
/// what `char::is_whitespace` accepts).
pub open spec fn is_space(c: char) -> bool {
    ('\t' <= c && c <= '\r') || c == ' ' || c == '\u{85}' || c == '\u{a0}' || c == '\u{1680}'
        || ('\u{2000}' <= c && c <= '\u{200a}') || c == '\u{2028}' || c == '\u{2029}'
        || c == '\u{202f}' || c == '\u{205f}' || c == '\u{3000}'
}

pub fn is_space_char(c: char) -> (r: bool)
    ensures
        r == is_space(c),
{
    ('\t' <= c && c <= '\r') || c == ' ' || c == '\u{85}' || c == '\u{a0}' || c == '\u{1680}'
        || ('\u{2000}' <= c && c <= '\u{200a}') || c == '\u{2028}' || c == '\u{2029}'
        || c == '\u{202f}' || c == '\u{205f}' || c == '\u{3000}'
}

/// The first index at or after `i` that does not hold whitespace.
pub open spec fn skip_ws(t: Seq<char>, i: int) -> int
    decreases t.len() - i,
{
    if 0 <= i < t.len() && is_space(t[i]) {
        skip_ws(t, i + 1)
    } else {
        i
    }
}

pub proof fn lemma_skip_ws(t: Seq<char>, i: int)
    requires
        0 <= i <= t.len(),
    ensures
        i <= skip_ws(t, i) <= t.len(),
        forall|k: int| i <= k < skip_ws(t, i) ==> is_space(#[trigger] t[k]),
        skip_ws(t, i) < t.len() ==> !is_space(t[skip_ws(t, i)]),
    decreases t.len() - i,
{
    if i < t.len() && is_space(t[i]) {
        lemma_skip_ws(t, i + 1);
    }
}

/// `w` occurs in `t` at index `i`.
pub open spec fn has_at(t: Seq<char>, i: int, w: Seq<char>) -> bool {
    0 <= i && i + w.len() <= t.len() && t.subrange(i, i + w.len()) == w
}

/// The end of a `{ name }` token (braces, optional whitespace) starting at `i`.
pub open spec fn token_end(t: Seq<char>, i: int, name: Seq<char>) -> Option<int> {
    if 0 <= i < t.len() && t[i] == '{' {
        let a = skip_ws(t, i + 1);
        if has_at(t, a, name) {
            let b = skip_ws(t, a + name.len());
            if b < t.len() && t[b] == '}' {
                Some(b + 1)
            } else {
                None
            }
        } else {
            None
        }
    } else {
        None
    }
}

/// `t[i..]` with every `{ name }` token replaced by `rep`, scanning left to right.
pub open spec fn replace_all_from(t: Seq<char>, i: int, name: Seq<char>, rep: Seq<char>) -> Seq<
    char,
>
    decreases t.len() - i,
{
    if i < 0 || i >= t.len() {
        seq![]
    } else if token_end(t, i, name) is Some && token_end(t, i, name)->0 > i {
        rep + replace_all_from(t, token_end(t, i, name)->0, name, rep)
    } else {
        seq![t[i]] + replace_all_from(t, i + 1, name, rep)
    }
}

/// `t` with every `{ name }` token replaced by `rep`.
pub open spec fn replace_all_spec(t: Seq<char>, name: Seq<char>, rep: Seq<char>) -> Seq<char> {
    replace_all_from(t, 0, name, rep)
}

/// The index of the first `{ name }` token in `t[i..]`, if any.
pub open spec fn first_token_from(t: Seq<char>, i: int, name: Seq<char>) -> Option<int>
    decreases t.len() - i,
{
    if i < 0 || i >= t.len() {
        None
    } else if token_end(t, i, name) is Some {
        Some(i)
    } else {
        first_token_from(t, i + 1, name)
    }
}

/// `t` with only its first `{ name }` token replaced by `rep`.
pub open spec fn replace_first_spec(t: Seq<char>, name: Seq<char>, rep: Seq<char>) -> Seq<char> {
    match first_token_from(t, 0, name) {
        Some(i) => t.subrange(0, i) + rep + t.subrange(token_end(t, i, name)->0, t.len() as int),
        None => t,
    }
}

/// The characters of a string slice.
pub fn chars_of(s: &str) -> (r: Vec<char>)
    ensures
        r@ == s@,
{
    let n = s.unicode_len();
    let mut r: Vec<char> = Vec::new();
    let mut i: usize = 0;
    while i < n
        invariant
            n == s@.len(),
            i <= n,
            r@ == s@.subrange(0, i as int),
        decreases n - i,
    {
        r.push(s.get_char(i));
        i += 1;
    }
    r
}

/// Relies on `String::from_iter` over `char`s: the string holds exactly those characters.
#[verifier::external_body]
pub fn string_of(v: &Vec<char>) -> (r: String)
    ensures
        r@ == v@,
{
    String::from_iter(v.iter())
}

/// Appends `src` to `dst`.
pub fn append(dst: &mut Vec<char>, src: &Vec<char>)
    ensures
        final(dst)@ == old(dst)@ + src@,
{
    let mut i: usize = 0;
    while i < src.len()
        invariant
            i <= src@.len(),
            dst@ == old(dst)@ + src@.subrange(0, i as int),
        decreases src.len() - i,
    {
        dst.push(src[i]);
        i += 1;
    }
    assert(src@.subrange(0, src@.len() as int) == src@);
}

/// Appends `src[from..to]` to `dst`.
pub fn append_range(dst: &mut Vec<char>, src: &Vec<char>, from: usize, to: usize)
    requires
        from <= to <= src@.len(),
    ensures
        final(dst)@ == old(dst)@ + src@.subrange(from as int, to as int),
{
    let mut i: usize = from;
    while i < to
        invariant
            from <= i <= to <= src@.len(),
            dst@ == old(dst)@ + src@.subrange(from as int, i as int),
        decreases to - i,
    {
        dst.push(src[i]);
        i += 1;
        assert(src@.subrange(from as int, i as int) =~= src@.subrange(from as int, i - 1) + seq![
            src@[i - 1],
        ]);
    }
}

pub fn skip_ws_exec(t: &Vec<char>, i: usize) -> (r: usize)
    requires
        i <= t@.len(),
    ensures
        r == skip_ws(t@, i as int),
        i <= r <= t@.len(),
{
    proof {
        lemma_skip_ws(t@, i as int);
    }
    let mut k: usize = i;
    while k < t.len() && is_space_char(t[k])
        invariant
            i <= k <= t@.len(),
            skip_ws(t@, k as int) == skip_ws(t@, i as int),
        decreases t@.len() - k,
    {
        k += 1;
    }
    k
}

pub fn has_at_exec(t: &Vec<char>, i: usize, w: &Vec<char>) -> (r: bool)
    ensures
        r == has_at(t@, i as int, w@),
{
    if i > t.len() || w.len() > t.len() - i {
        return false;
    }
    let mut k: usize = 0;
    while k < w.len()
        invariant
            i + w.len() <= t.len(),
            t.len() == t@.len(),
            w.len() == w@.len(),
            k <= w@.len(),
            forall|j: int| 0 <= j < k ==> t@[i + j] == w@[j],
        decreases w@.len() - k,
    {
        if t[i + k] != w[k] {
            assert(t@.subrange(i as int, i + w@.len())[k as int] != w@[k as int]);
            return false;
        }
        k += 1;
    }
    assert(t@.subrange(i as int, i + w@.len()) =~= w@);
    true
}

pub fn token_end_exec(t: &Vec<char>, i: usize, name: &Vec<char>) -> (r: Option<usize>)
    requires
        i <= t@.len(),
    ensures
        r matches Some(e) ==> token_end(t@, i as int, name@) == Some(e as int),
        r is None ==> token_end(t@, i as int, name@) is None,
        r matches Some(e) ==> i < e <= t@.len(),
{
    if i >= t.len() || t[i] != '{' {
        return None;
    }
    let a = skip_ws_exec(t, i + 1);
    if !has_at_exec(t, a, name) {
        return None;
    }
    let b = skip_ws_exec(t, a + name.len());
    if b < t.len() && t[b] == '}' {
        Some(b + 1)
    } else {
        None
    }
}

pub proof fn lemma_token_end_after(t: Seq<char>, i: int, name: Seq<char>)
    requires
        token_end(t, i, name) is Some,
    ensures
        i < token_end(t, i, name)->0 <= t.len(),
{
    lemma_skip_ws(t, i + 1);
    let a = skip_ws(t, i + 1);
    lemma_skip_ws(t, a + name.len());
}

/// Replaces every `{ name }` token of `t` by `rep`.
pub fn replace_all_token(t: &Vec<char>, name: &Vec<char>, rep: &Vec<char>) -> (r: Vec<char>)
    ensures
        r@ == replace_all_spec(t@, name@, rep@),
{
    let mut out: Vec<char> = Vec::new();
    let mut i: usize = 0;
    while i < t.len()
        invariant
            i <= t@.len(),
            out@ + replace_all_from(t@, i as int, name@, rep@) == replace_all_spec(
                t@,
                name@,
                rep@,
            ),
        decreases t@.len() - i,
    {
        match token_end_exec(t, i, name) {
            Some(e) => {
                append(&mut out, rep);
                let ghost before = out@.subrange(0, out@.len() - rep@.len());
                assert(before + rep@ =~= out@);
                assert(out@ + replace_all_from(t@, e as int, name@, rep@) =~= before + (rep@
                    + replace_all_from(t@, e as int, name@, rep@)));
                i = e;
            },
            None => {
                let ghost before = out@;
                out.push(t[i]);
                assert(out@ + replace_all_from(t@, i + 1, name@, rep@) =~= before + (seq![t@[i as int]]
                    + replace_all_from(t@, i + 1, name@, rep@)));
                i += 1;
            },
        }
    }
    assert(out@ + replace_all_from(t@, i as int, name@, rep@) =~= out@);
    out
}

/// Finds the first `{ name }` token at or after `i`.
pub fn first_token_exec(t: &Vec<char>, i: usize, name: &Vec<char>) -> (r: Option<usize>)
    requires
        i <= t@.len(),
    ensures
        r matches Some(k) ==> first_token_from(t@, i as int, name@) == Some(k as int),
        r is None ==> first_token_from(t@, i as int, name@) is None,
        r matches Some(k) ==> i <= k < t@.len() && token_end(t@, k as int, name@) is Some,
{
    let mut k: usize = i;
    while k < t.len()
        invariant
            i <= k <= t@.len(),
            first_token_from(t@, k as int, name@) == first_token_from(t@, i as int, name@),
        decreases t@.len() - k,
    {
        if token_end_exec(t, k, name).is_some() {
            return Some(k);
        }
        k += 1;
    }
    None
}

/// Replaces the first `{ name }` token of `t` by `rep`.
pub fn replace_first_token(t: &Vec<char>, name: &Vec<char>, rep: &Vec<char>) -> (r: Vec<char>)
    ensures
        r@ == replace_first_spec(t@, name@, rep@),
{
    match first_token_exec(t, 0, name) {
        Some(k) => {
            let e = token_end_exec(t, k, name).unwrap();
            let mut out: Vec<char> = Vec::new();
            append_range(&mut out, t, 0, k);
            append(&mut out, rep);
            append_range(&mut out, t, e, t.len());
            out
        },
        None => t.clone(),
    }
}

} // verus!
