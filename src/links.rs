//! Rewriting of local URLs in rendered HTML so that they are relative to the
//! document that holds them.
use vstd::prelude::*;
use crate::text::{
    append, append_range, chars_of, has_at, has_at_exec, is_space, is_space_char, lemma_skip_ws, skip_ws,
    skip_ws_exec, string_of,
};
use crate::directives::{advances, find_char, find_char_exec};
use percent_encoding::{percent_encode_byte, utf8_percent_encode, CONTROLS};

verus! {

// ----- outside calls -----

/// What `percent_encoding::utf8_percent_encode` makes of a text with the set
/// `CONTROLS`: each byte of the UTF-8 form that is a control or not ASCII is
/// written as `%XX`.
pub uninterp spec fn controls_encoded(s: Seq<char>) -> Seq<char>;

/// Printable ASCII.
pub open spec fn is_printable(c: char) -> bool {
    ' ' <= c && c < '\u{7f}'
}

/// Relies on `percent_encoding::utf8_percent_encode` with `CONTROLS`: the result
/// depends on the text alone, and printable ASCII text is kept as it is.
#[verifier::external_body]
fn encode_controls(s: &str) -> (r: String)
    ensures
        r@ == controls_encoded(s@),
        (forall|k: int| 0 <= k < s@.len() ==> is_printable(#[trigger] s@[k])) ==> r@ == s@,
{
    utf8_percent_encode(s, CONTROLS).to_string()
}

pub open spec fn hex_digit(n: u8) -> char {
    if n < 10 {
        ((48 + n) as u8) as char
    } else {
        ((55 + n) as u8) as char
    }
}

/// Relies on `percent_encoding::percent_encode_byte`: `%` and two upper-case hex digits.
#[verifier::external_body]
fn encode_byte(b: u8) -> (r: String)
    ensures
        r@ == seq!['%', hex_digit(b / 16), hex_digit(b % 16)],
{
    percent_encode_byte(b).to_string()
}

/// The printable characters that a path segment encodes besides controls.
pub open spec fn is_fragment_special(c: char) -> bool {
    c == ' ' || c == '"' || c == '<' || c == '>' || c == '`'
}

/// Percent-encoding of one character of the set above.
pub open spec fn special_encoded(c: char) -> Seq<char> {
    if is_fragment_special(c) {
        seq!['%', hex_digit((c as u8) / 16), hex_digit((c as u8) % 16)]
    } else {
        seq![c]
    }
}

/// `s` with each character of the set above encoded.
pub open spec fn specials_encoded(s: Seq<char>) -> Seq<char>
    decreases s.len(),
{
    if s.len() == 0 {
        seq![]
    } else {
        specials_encoded(s.drop_last()) + special_encoded(s.last())
    }
}

/// A path segment percent-encoded: controls, non-ASCII, space, `"`, `<`, `>` and `` ` ``.
/// Printable ASCII text is left alone by the control encoding.
pub open spec fn fragment_encoded(s: Seq<char>) -> Seq<char> {
    if forall|k: int| 0 <= k < s.len() ==> is_printable(#[trigger] s[k]) {
        specials_encoded(s)
    } else {
        specials_encoded(controls_encoded(s))
    }
}

/// Characters that the encoding leaves as they are.
pub open spec fn is_plain(c: char) -> bool {
    is_printable(c) && !is_fragment_special(c)
}

pub proof fn lemma_specials_plain(s: Seq<char>)
    requires
        forall|k: int| 0 <= k < s.len() ==> is_plain(#[trigger] s[k]),
    ensures
        specials_encoded(s) == s,
    decreases s.len(),
{
    if s.len() > 0 {
        lemma_specials_plain(s.drop_last());
        assert(s.drop_last() + seq![s.last()] =~= s);
    }
}

/// Percent-encodes one path segment.
pub fn encode_segment(s: &Vec<char>) -> (r: Vec<char>)
    ensures
        r@ == fragment_encoded(s@),
        (forall|k: int| 0 <= k < s@.len() ==> is_plain(#[trigger] s@[k])) ==> r@ == s@,
{
    let c = chars_of(encode_controls(string_of(s).as_str()).as_str());
    let mut r: Vec<char> = Vec::new();
    let mut i: usize = 0;
    while i < c.len()
        invariant
            i <= c@.len(),
            r@ == specials_encoded(c@.subrange(0, i as int)),
        decreases c@.len() - i,
    {
        let ch = c[i];
        if ch == ' ' || ch == '"' || ch == '<' || ch == '>' || ch == '`' {
            let e = chars_of(encode_byte(ch as u8).as_str());
            append(&mut r, &e);
        } else {
            r.push(ch);
        }
        assert(c@.subrange(0, i + 1).drop_last() =~= c@.subrange(0, i as int));
        i += 1;
    }
    assert(c@.subrange(0, c@.len() as int) =~= c@);
    proof {
        if forall|k: int| 0 <= k < s@.len() ==> is_plain(#[trigger] s@[k]) {
            assert(forall|k: int| 0 <= k < s@.len() ==> is_printable(#[trigger] s@[k]));
            lemma_specials_plain(s@);
        }
    }
    r
}

/// What `pathdiff::diff_paths(path, base)` returns, as text.
pub uninterp spec fn path_diff(path: Seq<char>, base: Seq<char>) -> Option<Seq<char>>;

pub open spec fn is_absolute(p: Seq<char>) -> bool {
    p.len() > 0 && p[0] == '/'
}

/// Relies on `pathdiff::diff_paths`: the relative path from `base` to `path`,
/// which depends on the two paths alone; an absolute path against a relative
/// base is returned as it is, and a relative path against an absolute base has none.
#[verifier::external_body]
fn diff_paths_text(path: &str, base: &str) -> (r: Option<String>)
    ensures
        r matches Some(s) ==> path_diff(path@, base@) == Some(s@),
        r is None ==> path_diff(path@, base@) is None,
        r is None ==> !(is_absolute(path@) && !is_absolute(base@)),
        r matches Some(s) ==> (is_absolute(path@) && !is_absolute(base@) ==> s@ == path@),
        r is Some ==> !(!is_absolute(path@) && is_absolute(base@)),
{
    pathdiff::diff_paths(std::path::Path::new(path), std::path::Path::new(base)).map(
        |p| p.to_string_lossy().into_owned(),
    )
}

// ----- paths -----

pub open spec fn starts_with(s: Seq<char>, p: Seq<char>) -> bool {
    has_at(s, 0, p)
}

/// A URL that refers to a file of the site.
pub open spec fn is_local(u: Seq<char>) -> bool {
    !starts_with(u, "http://"@) && !starts_with(u, "https://"@) && !starts_with(u, "//"@)
        && !starts_with(u, "#"@) && !starts_with(u, "mailto:"@) && !starts_with(u, "tel:"@)
        && !starts_with(u, "data:"@) && !starts_with(u, "javascript:"@)
}

/// `rel` appended to the directory `dir`, with one separator.
pub open spec fn join_path(dir: Seq<char>, rel: Seq<char>) -> Seq<char> {
    if is_absolute(rel) {
        rel
    } else if dir.len() > 0 && dir[dir.len() - 1] == '/' {
        dir + rel
    } else {
        dir + seq!['/'] + rel
    }
}

/// The file a URL names: under `root` when it starts with `/`, else the URL itself.
pub open spec fn link_target(u: Seq<char>, root: Seq<char>) -> Seq<char> {
    if is_absolute(u) {
        join_path(root, u.subrange(1, u.len() as int))
    } else {
        u
    }
}

/// The last index of `c` in `s[..k]`.
pub open spec fn last_index(s: Seq<char>, k: int, c: char) -> Option<int>
    decreases k,
{
    if k <= 0 || k > s.len() {
        None
    } else if s[k - 1] == c {
        Some(k - 1)
    } else {
        last_index(s, k - 1, c)
    }
}

/// The directory that holds the file at `p`.
pub open spec fn parent_dir(p: Seq<char>) -> Seq<char> {
    match last_index(p, p.len() as int, '/') {
        None => seq![],
        Some(k) => if k == 0 {
            seq!['/']
        } else {
            p.subrange(0, k)
        },
    }
}

/// `s` with each segment between `/` separators encoded on its own.
pub open spec fn encode_path(s: Seq<char>) -> Seq<char>
    decreases s.len(),
{
    let k = find_char(s, 0, '/');
    if k < 0 || k >= s.len() {
        fragment_encoded(s)
    } else {
        fragment_encoded(s.subrange(0, k)) + seq!['/'] + encode_path(
            s.subrange(k + 1, s.len() as int),
        )
    }
}

pub open spec fn slashes(s: Seq<char>) -> Seq<char> {
    s.map_values(|c: char| if c == '\\' { '/' } else { c })
}

/// The link to `target` from the document at `doc`, for a site under `root`.
/// A relative target seen from an absolute directory has no difference path and
/// is kept (encoded) as written.
pub open spec fn relative_link(target: Seq<char>, doc: Seq<char>, root: Seq<char>) -> Seq<char> {
    if !is_absolute(link_target(target, root)) && is_absolute(parent_dir(doc)) {
        encode_path(target)
    } else {
        match path_diff(link_target(target, root), parent_dir(doc)) {
            Some(p) => encode_path(slashes(p)),
            None => encode_path(target),
        }
    }
}

pub fn starts_with_exec(s: &Vec<char>, p: &str) -> (r: bool)
    ensures
        r == starts_with(s@, p@),
{
    let pv = chars_of(p);
    has_at_exec(s, 0, &pv)
}

/// Whether a URL refers to a file of the site (and is to be rewritten).
pub fn should_rewrite(u: &Vec<char>) -> (r: bool)
    ensures
        r == is_local(u@),
{
    !starts_with_exec(u, "http://") && !starts_with_exec(u, "https://") && !starts_with_exec(
        u,
        "//",
    ) && !starts_with_exec(u, "#") && !starts_with_exec(u, "mailto:") && !starts_with_exec(
        u,
        "tel:",
    ) && !starts_with_exec(u, "data:") && !starts_with_exec(u, "javascript:")
}

fn join_path_exec(dir: &Vec<char>, rel: &Vec<char>) -> (r: Vec<char>)
    ensures
        r@ == join_path(dir@, rel@),
{
    if rel.len() > 0 && rel[0] == '/' {
        return rel.clone();
    }
    let mut r = dir.clone();
    if !(dir.len() > 0 && dir[dir.len() - 1] == '/') {
        r.push('/');
    }
    append(&mut r, rel);
    r
}

fn parent_dir_exec(p: &Vec<char>) -> (r: Vec<char>)
    ensures
        r@ == parent_dir(p@),
{
    let mut k: usize = p.len();
    while k > 0 && p[k - 1] != '/'
        invariant
            k <= p@.len(),
            last_index(p@, k as int, '/') == last_index(p@, p@.len() as int, '/'),
        decreases k,
    {
        k -= 1;
    }
    if k == 0 {
        Vec::new()
    } else if k == 1 {
        vec!['/']
    } else {
        let mut r: Vec<char> = Vec::new();
        append_range(&mut r, p, 0, k - 1);
        r
    }
}

/// Percent-encodes each `/`-separated segment of `path`, keeping the separators.
pub fn url_encode_path(path: &Vec<char>) -> (r: Vec<char>)
    ensures
        r@ == encode_path(path@),
    decreases path@.len(),
{
    let k = find_char_exec(path, 0, '/');
    let mut seg: Vec<char> = Vec::new();
    append_range(&mut seg, path, 0, k);
    let mut r = encode_segment(&seg);
    if k < path.len() {
        r.push('/');
        let mut rest: Vec<char> = Vec::new();
        append_range(&mut rest, path, k + 1, path.len());
        let tail = url_encode_path(&rest);
        append(&mut r, &tail);
    } else {
        assert(seg@ =~= path@);
    }
    r
}

/// The link to `target` from the document at `doc`, for a site under `root`,
/// percent-encoded segment by segment.
pub fn make_relative_link(target: &Vec<char>, doc: &Vec<char>, root: &Vec<char>) -> (r: Vec<char>)
    ensures
        r@ == relative_link(target@, doc@, root@),
{
    let full = if target.len() > 0 && target[0] == '/' {
        let mut rel: Vec<char> = Vec::new();
        append_range(&mut rel, target, 1, target.len());
        join_path_exec(root, &rel)
    } else {
        target.clone()
    };
    assert(full@ == link_target(target@, root@));
    let dir = parent_dir_exec(doc);
    let full_s = string_of(&full);
    let dir_s = string_of(&dir);
    match diff_paths_text(full_s.as_str(), dir_s.as_str()) {
        Some(p) => {
            let pc = chars_of(p.as_str());
            let mut fixed: Vec<char> = Vec::new();
            let mut i: usize = 0;
            while i < pc.len()
                invariant
                    i <= pc@.len(),
                    fixed@ == slashes(pc@).subrange(0, i as int),
                decreases pc@.len() - i,
            {
                fixed.push(if pc[i] == '\\' { '/' } else { pc[i] });
                i += 1;
                assert(fixed@ =~= slashes(pc@).subrange(0, i as int));
            }
            assert(fixed@ =~= slashes(p@));
            url_encode_path(&fixed)
        },
        None => url_encode_path(target),
    }
}

// ----- attributes -----

/// The end of `<name` followed by whitespace at `i`, for the first such name of `names`.
pub open spec fn tag_end(t: Seq<char>, i: int, names: Seq<Seq<char>>) -> Option<int>
    decreases names.len(),
{
    if names.len() == 0 || i < 0 || i >= t.len() || t[i] != '<' {
        None
    } else if has_at(t, i + 1, names[0]) && i + 1 + names[0].len() < t.len() && is_space(
        t[i + 1 + names[0].len()],
    ) {
        Some(i + 1 + names[0].len())
    } else {
        tag_end(t, i, names.drop_first())
    }
}

pub open spec fn is_quote(c: char) -> bool {
    c == '"' || c == '\''
}

/// The first index at or after `i` that holds a quote, or the length of `t`.
pub open spec fn find_quote(t: Seq<char>, i: int) -> int
    decreases t.len() - i,
{
    if i < 0 || i >= t.len() {
        if i < 0 { 0 } else { i }
    } else if is_quote(t[i]) {
        i
    } else {
        find_quote(t, i + 1)
    }
}

/// `attr = "value" ... >` at `p`: the bounds of the value and the end of the tag.
pub open spec fn attr_at(t: Seq<char>, p: int, attr: Seq<char>) -> Option<(int, int, int)> {
    let a = skip_ws(t, p + attr.len());
    let b = skip_ws(t, a + 1);
    let ve = find_quote(t, b + 1);
    let g = find_char(t, ve + 1, '>');
    if has_at(t, p, attr) && a < t.len() && t[a] == '=' && b < t.len() && is_quote(t[b]) && ve
        > b + 1 && ve < t.len() && g < t.len() {
        Some((b + 1, ve, g + 1))
    } else {
        None
    }
}

/// The match of the attribute that starts last in `lo..k`.
pub open spec fn last_attr(t: Seq<char>, lo: int, k: int, attr: Seq<char>) -> Option<(int, int, int)>
    decreases k - lo,
{
    if k <= lo {
        None
    } else if attr_at(t, k - 1, attr) is Some {
        attr_at(t, k - 1, attr)
    } else {
        last_attr(t, lo, k - 1, attr)
    }
}

/// A tag of `names` at `i` holding `attr`: the bounds of its value and the end of the tag.
/// Of several places in the tag where `attr` fits, the last one is taken.
pub open spec fn link_at(t: Seq<char>, i: int, names: Seq<Seq<char>>, attr: Seq<char>) -> Option<
    (int, int, int),
> {
    match tag_end(t, i, names) {
        Some(ne) => last_attr(t, ne + 1, find_char(t, ne, '>'), attr),
        None => None,
    }
}

/// The first index at or after `i` that holds whitespace, or the length of `t`.
pub open spec fn find_space(t: Seq<char>, i: int) -> int
    decreases t.len() - i,
{
    if i < 0 || i >= t.len() {
        if i < 0 { 0 } else { i }
    } else if is_space(t[i]) {
        i
    } else {
        find_space(t, i + 1)
    }
}

/// Where the URL of a `srcset` candidate starts: after its leading whitespace.
pub open spec fn url_start(e: Seq<char>) -> int {
    skip_ws(e, 0)
}

/// Where the URL of a `srcset` candidate ends.
pub open spec fn url_end(e: Seq<char>) -> int {
    find_space(e, url_start(e))
}

/// The URL of a `srcset` candidate is one of the site's.
pub open spec fn candidate_is_local(e: Seq<char>) -> bool {
    url_start(e) < e.len() && is_local(e.subrange(url_start(e), url_end(e)))
}

/// One candidate of a `srcset` list: its URL rewritten when local; the whitespace
/// around it and its descriptors kept as they are.
pub open spec fn srcset_entry(e: Seq<char>, doc: Seq<char>, root: Seq<char>) -> Seq<char> {
    if candidate_is_local(e) {
        e.subrange(0, url_start(e)) + relative_link(e.subrange(url_start(e), url_end(e)), doc, root)
            + e.subrange(url_end(e), e.len() as int)
    } else {
        e
    }
}

/// A `srcset` list with each comma-separated candidate rewritten; the commas stay.
pub open spec fn srcset_rewrite(s: Seq<char>, doc: Seq<char>, root: Seq<char>) -> Seq<char>
    decreases s.len(),
{
    let k = find_char(s, 0, ',');
    if k < 0 || k >= s.len() {
        srcset_entry(s, doc, root)
    } else {
        srcset_entry(s.subrange(0, k), doc, root) + seq![','] + srcset_rewrite(
            s.subrange(k + 1, s.len() as int),
            doc,
            root,
        )
    }
}

/// No candidate of a `srcset` list names a file of the site.
pub open spec fn remote_candidates(s: Seq<char>) -> bool
    decreases s.len(),
{
    let k = find_char(s, 0, ',');
    if k < 0 || k >= s.len() {
        !candidate_is_local(s)
    } else {
        !candidate_is_local(s.subrange(0, k)) && remote_candidates(s.subrange(k + 1, s.len() as int))
    }
}

pub proof fn lemma_remote_srcset_kept(s: Seq<char>, doc: Seq<char>, root: Seq<char>)
    requires
        remote_candidates(s),
    ensures
        srcset_rewrite(s, doc, root) == s,
    decreases s.len(),
{
    let k = find_char(s, 0, ',');
    crate::directives::lemma_find_char(s, 0, ',');
    if 0 <= k < s.len() {
        lemma_remote_srcset_kept(s.subrange(k + 1, s.len() as int), doc, root);
        assert(s.subrange(0, k) + seq![','] + s.subrange(k + 1, s.len() as int) =~= s);
    }
}

/// The new value of an attribute.
pub open spec fn new_value(u: Seq<char>, srcset: bool, doc: Seq<char>, root: Seq<char>) -> Seq<
    char,
> {
    if srcset {
        srcset_rewrite(u, doc, root)
    } else if is_local(u) {
        relative_link(u, doc, root)
    } else {
        u
    }
}

/// `t[i..]` with the value of `attr` in every tag of `names` rewritten.
pub open spec fn rewrite_from(
    t: Seq<char>,
    i: int,
    names: Seq<Seq<char>>,
    attr: Seq<char>,
    srcset: bool,
    doc: Seq<char>,
    root: Seq<char>,
) -> Seq<char>
    decreases t.len() - i,
{
    if i < 0 || i >= t.len() {
        seq![]
    } else if advances(link_at(t, i, names, attr), i, t.len() as int) {
        let v = link_at(t, i, names, attr)->0;
        t.subrange(i, v.0) + new_value(t.subrange(v.0, v.1), srcset, doc, root) + t.subrange(
            v.1,
            v.2,
        ) + rewrite_from(t, v.2, names, attr, srcset, doc, root)
    } else {
        seq![t[i]] + rewrite_from(t, i + 1, names, attr, srcset, doc, root)
    }
}

pub open spec fn rewrite_pass(
    t: Seq<char>,
    names: Seq<Seq<char>>,
    attr: Seq<char>,
    srcset: bool,
    doc: Seq<char>,
    root: Seq<char>,
) -> Seq<char> {
    rewrite_from(t, 0, names, attr, srcset, doc, root)
}

pub open spec fn href_tags() -> Seq<Seq<char>> {
    seq!["a"@, "link"@, "area"@, "base"@]
}

pub open spec fn src_tags() -> Seq<Seq<char>> {
    seq!["img"@, "audio"@, "video"@, "script"@, "source"@, "iframe"@, "embed"@, "track"@]
}

pub open spec fn data_tags() -> Seq<Seq<char>> {
    seq!["object"@, "embed"@]
}

pub open spec fn poster_tags() -> Seq<Seq<char>> {
    seq!["video"@]
}

pub open spec fn action_tags() -> Seq<Seq<char>> {
    seq!["form"@]
}

pub open spec fn srcset_tags() -> Seq<Seq<char>> {
    seq!["img"@, "source"@]
}

/// `html` with every local URL in `href`, `src`, `data`, `poster`, `action` and
/// `srcset` attributes made relative to the document at `doc`, in that order.
pub open spec fn rewrite_links_spec(html: Seq<char>, doc: Seq<char>, root: Seq<char>) -> Seq<char> {
    let t1 = rewrite_pass(html, href_tags(), "href"@, false, doc, root);
    let t2 = rewrite_pass(t1, src_tags(), "src"@, false, doc, root);
    let t3 = rewrite_pass(t2, data_tags(), "data"@, false, doc, root);
    let t4 = rewrite_pass(t3, poster_tags(), "poster"@, false, doc, root);
    let t5 = rewrite_pass(t4, action_tags(), "action"@, false, doc, root);
    rewrite_pass(t5, srcset_tags(), "srcset"@, true, doc, root)
}

pub open spec fn views(v: Seq<Vec<char>>) -> Seq<Seq<char>> {
    v.map_values(|x: Vec<char>| x@)
}

fn tag_end_exec(t: &Vec<char>, i: usize, names: &Vec<Vec<char>>) -> (r: Option<usize>)
    requires
        i <= t@.len(),
    ensures
        r matches Some(e) ==> tag_end(t@, i as int, views(names@)) == Some(e as int) && i < e
            < t@.len(),
        r is None ==> tag_end(t@, i as int, views(names@)) is None,
{
    if i >= t.len() || t[i] != '<' {
        return None;
    }
    let mut k: usize = 0;
    assert(views(names@).subrange(0, names@.len() as int) =~= views(names@));
    while k < names.len()
        invariant
            k <= names@.len(),
            i < t.len(),
            i < t@.len(),
            t@[i as int] == '<',
            tag_end(t@, i as int, views(names@)) == tag_end(
                t@,
                i as int,
                views(names@).subrange(k as int, names@.len() as int),
            ),
        decreases names@.len() - k,
    {
        let ghost rest = views(names@).subrange(k as int, names@.len() as int);
        assert(rest.drop_first() =~= views(names@).subrange(k + 1, names@.len() as int));
        let n = &names[k];
        if has_at_exec(t, i + 1, n) && n.len() < t.len() - i - 1 && is_space_char(
            t[i + 1 + n.len()],
        ) {
            return Some(i + 1 + n.len());
        }
        k += 1;
    }
    None
}

pub proof fn lemma_find_quote(t: Seq<char>, i: int)
    requires
        0 <= i <= t.len(),
    ensures
        i <= find_quote(t, i) <= t.len(),
    decreases t.len() - i,
{
    if i < t.len() && !is_quote(t[i]) {
        lemma_find_quote(t, i + 1);
    }
}

pub proof fn lemma_find_space(t: Seq<char>, i: int)
    requires
        0 <= i <= t.len(),
    ensures
        i <= find_space(t, i) <= t.len(),
        i < t.len() && !is_space(t[i]) ==> find_space(t, i) > i,
    decreases t.len() - i,
{
    if i < t.len() && !is_space(t[i]) {
        lemma_find_space(t, i + 1);
    }
}

fn find_quote_exec(t: &Vec<char>, i: usize) -> (r: usize)
    requires
        i <= t@.len(),
    ensures
        r == find_quote(t@, i as int),
        i <= r <= t@.len(),
{
    proof {
        lemma_find_quote(t@, i as int);
    }
    let mut k: usize = i;
    while k < t.len() && t[k] != '"' && t[k] != '\''
        invariant
            i <= k <= t@.len(),
            find_quote(t@, k as int) == find_quote(t@, i as int),
        decreases t@.len() - k,
    {
        k += 1;
    }
    k
}

fn find_space_exec(t: &Vec<char>, i: usize) -> (r: usize)
    requires
        i <= t@.len(),
    ensures
        r == find_space(t@, i as int),
        i <= r <= t@.len(),
{
    proof {
        lemma_find_space(t@, i as int);
    }
    let mut k: usize = i;
    while k < t.len() && !is_space_char(t[k])
        invariant
            i <= k <= t@.len(),
            find_space(t@, k as int) == find_space(t@, i as int),
        decreases t@.len() - k,
    {
        k += 1;
    }
    k
}

fn attr_at_exec(t: &Vec<char>, p: usize, attr: &Vec<char>) -> (r: Option<(usize, usize, usize)>)
    requires
        p <= t@.len(),
    ensures
        r matches Some(v) ==> attr_at(t@, p as int, attr@) == Some(
            (v.0 as int, v.1 as int, v.2 as int),
        ) && p < v.0 < v.1 < v.2 <= t@.len(),
        r is None ==> attr_at(t@, p as int, attr@) is None,
{
    if attr.len() > t.len() - p || !has_at_exec(t, p, attr) {
        return None;
    }
    let a = skip_ws_exec(t, p + attr.len());
    if !(a < t.len() && t[a] == '=') {
        return None;
    }
    let b = skip_ws_exec(t, a + 1);
    if !(b < t.len() && (t[b] == '"' || t[b] == '\'')) {
        return None;
    }
    let ve = find_quote_exec(t, b + 1);
    if !(ve > b + 1 && ve < t.len()) {
        return None;
    }
    let g = find_char_exec(t, ve + 1, '>');
    if g < t.len() {
        Some((b + 1, ve, g + 1))
    } else {
        None
    }
}

#[verifier::loop_isolation(false)]
fn link_at_exec(t: &Vec<char>, i: usize, names: &Vec<Vec<char>>, attr: &Vec<char>) -> (r: Option<
    (usize, usize, usize),
>)
    requires
        i <= t@.len(),
    ensures
        r matches Some(v) ==> link_at(t@, i as int, views(names@), attr@) == Some(
            (v.0 as int, v.1 as int, v.2 as int),
        ) && i < v.0 < v.1 < v.2 <= t@.len(),
        r is None ==> link_at(t@, i as int, views(names@), attr@) is None,
{
    match tag_end_exec(t, i, names) {
        None => None,
        Some(ne) => {
            if ne >= t.len() {
                return None;
            }
            let g = find_char_exec(t, ne, '>');
            let mut k: usize = g;
            while k > ne + 1
                invariant
                    ne + 1 <= k <= g <= t@.len() || (k == g && g <= ne + 1),
                    last_attr(t@, ne + 1, k as int, attr@) == last_attr(
                        t@,
                        ne + 1,
                        g as int,
                        attr@,
                    ),
                decreases k,
            {
                match attr_at_exec(t, k - 1, attr) {
                    Some(v) => {
                        return Some(v);
                    },
                    None => {},
                }
                k -= 1;
            }
            None
        },
    }
}

fn srcset_entry_exec(e: &Vec<char>, doc: &Vec<char>, root: &Vec<char>) -> (r: Vec<char>)
    ensures
        r@ == srcset_entry(e@, doc@, root@),
{
    let a = skip_ws_exec(e, 0);
    let b = find_space_exec(e, a);
    if a >= e.len() {
        return e.clone();
    }
    let mut url: Vec<char> = Vec::new();
    append_range(&mut url, e, a, b);
    if !should_rewrite(&url) {
        return e.clone();
    }
    let mut out: Vec<char> = Vec::new();
    append_range(&mut out, e, 0, a);
    append(&mut out, &make_relative_link(&url, doc, root));
    append_range(&mut out, e, b, e.len());
    out
}

fn srcset_rewrite_exec(s: &Vec<char>, doc: &Vec<char>, root: &Vec<char>) -> (r: Vec<char>)
    ensures
        r@ == srcset_rewrite(s@, doc@, root@),
{
    let mut out: Vec<char> = Vec::new();
    let mut rest: Vec<char> = s.clone();
    loop
        invariant
            out@ + srcset_rewrite(rest@, doc@, root@) == srcset_rewrite(s@, doc@, root@),
        decreases rest@.len(),
    {
        let k = find_char_exec(&rest, 0, ',');
        let mut entry: Vec<char> = Vec::new();
        append_range(&mut entry, &rest, 0, k);
        let ne = srcset_entry_exec(&entry, doc, root);
        let ghost before = out@;
        append(&mut out, &ne);
        if k >= rest.len() {
            assert(entry@ =~= rest@);
            return out;
        }
        out.push(',');
        let mut tail: Vec<char> = Vec::new();
        append_range(&mut tail, &rest, k + 1, rest.len());
        assert(out@ + srcset_rewrite(tail@, doc@, root@) =~= before + srcset_rewrite(
            rest@,
            doc@,
            root@,
        ));
        rest = tail;
    }
}

/// One pass: rewrites the value of `attr` in every tag of `names`.
fn rewrite_pass_exec(
    t: &Vec<char>,
    names: &Vec<Vec<char>>,
    attr: &Vec<char>,
    srcset: bool,
    doc: &Vec<char>,
    root: &Vec<char>,
) -> (r: Vec<char>)
    ensures
        r@ == rewrite_pass(t@, views(names@), attr@, srcset, doc@, root@),
{
    let ghost nv = views(names@);
    let mut out: Vec<char> = Vec::new();
    let mut i: usize = 0;
    while i < t.len()
        invariant
            i <= t@.len(),
            nv == views(names@),
            out@ + rewrite_from(t@, i as int, nv, attr@, srcset, doc@, root@) == rewrite_pass(
                t@,
                nv,
                attr@,
                srcset,
                doc@,
                root@,
            ),
        decreases t@.len() - i,
    {
        match link_at_exec(t, i, names, attr) {
            Some((vs, ve, e)) => {
                let ghost before = out@;
                let mut u: Vec<char> = Vec::new();
                append_range(&mut u, t, vs, ve);
                let nu = if srcset {
                    srcset_rewrite_exec(&u, doc, root)
                } else if should_rewrite(&u) {
                    make_relative_link(&u, doc, root)
                } else {
                    u.clone()
                };
                append_range(&mut out, t, i, vs);
                append(&mut out, &nu);
                append_range(&mut out, t, ve, e);
                assert(out@ + rewrite_from(t@, e as int, nv, attr@, srcset, doc@, root@) =~= before
                    + rewrite_from(t@, i as int, nv, attr@, srcset, doc@, root@));
                i = e;
            },
            None => {
                let ghost before = out@;
                out.push(t[i]);
                assert(out@ + rewrite_from(t@, i + 1, nv, attr@, srcset, doc@, root@) =~= before
                    + rewrite_from(t@, i as int, nv, attr@, srcset, doc@, root@));
                i += 1;
            },
        }
    }
    assert(out@ + seq![] =~= out@);
    out
}

fn name_list(a: &str, b: &str, c: &str, d: &str, n: usize) -> (r: Vec<Vec<char>>)
    requires
        1 <= n <= 4,
    ensures
        views(r@) == seq![a@, b@, c@, d@].subrange(0, n as int),
{
    let mut r: Vec<Vec<char>> = Vec::new();
    r.push(chars_of(a));
    if n > 1 {
        r.push(chars_of(b));
    }
    if n > 2 {
        r.push(chars_of(c));
    }
    if n > 3 {
        r.push(chars_of(d));
    }
    assert(views(r@) =~= seq![a@, b@, c@, d@].subrange(0, n as int));
    r
}

/// Rewrites every local URL of the `href`, `src`, `data`, `poster`, `action` and
/// `srcset` attributes of `html` so that it is relative to the document at
/// `current_doc_path`, for a site under `root_path`.
pub fn rewrite_local_links(html: &str, current_doc_path: &str, root_path: &str) -> (r: String)
    ensures
        r@ == rewrite_links_spec(html@, current_doc_path@, root_path@),
{
    let t = chars_of(html);
    let doc = chars_of(current_doc_path);
    let root = chars_of(root_path);
    let href = name_list("a", "link", "area", "base", 4);
    let mut src: Vec<Vec<char>> = Vec::new();
    src.push(chars_of("img"));
    src.push(chars_of("audio"));
    src.push(chars_of("video"));
    src.push(chars_of("script"));
    src.push(chars_of("source"));
    src.push(chars_of("iframe"));
    src.push(chars_of("embed"));
    src.push(chars_of("track"));
    let data = name_list("object", "embed", "", "", 2);
    let poster = name_list("video", "", "", "", 1);
    let action = name_list("form", "", "", "", 1);
    let srcset = name_list("img", "source", "", "", 2);
    assert(views(href@) =~= href_tags());
    assert(views(src@) =~= src_tags());
    assert(views(data@) =~= data_tags());
    assert(views(poster@) =~= poster_tags());
    assert(views(action@) =~= action_tags());
    assert(views(srcset@) =~= srcset_tags());
    let t1 = rewrite_pass_exec(&t, &href, &chars_of("href"), false, &doc, &root);
    let t2 = rewrite_pass_exec(&t1, &src, &chars_of("src"), false, &doc, &root);
    let t3 = rewrite_pass_exec(&t2, &data, &chars_of("data"), false, &doc, &root);
    let t4 = rewrite_pass_exec(&t3, &poster, &chars_of("poster"), false, &doc, &root);
    let t5 = rewrite_pass_exec(&t4, &action, &chars_of("action"), false, &doc, &root);
    let t6 = rewrite_pass_exec(&t5, &srcset, &chars_of("srcset"), true, &doc, &root);
    string_of(&t6)
}

// ----- laws -----

/// The text of a matched value.
pub open spec fn value_of(t: Seq<char>, m: Option<(int, int, int)>) -> Seq<char> {
    match m {
        Some(v) => t.subrange(v.0, v.1),
        None => seq![],
    }
}

/// A match whose bounds lie in order after `i` and within the text.
pub open spec fn in_order(i: int, m: Option<(int, int, int)>, len: int) -> bool {
    match m {
        Some(v) => i < v.0 < v.1 < v.2 <= len,
        None => false,
    }
}

pub proof fn lemma_tag_end(t: Seq<char>, i: int, names: Seq<Seq<char>>)
    requires
        tag_end(t, i, names) is Some,
    ensures
        i < tag_end(t, i, names)->0 < t.len(),
    decreases names.len(),
{
    if !(has_at(t, i + 1, names[0]) && i + 1 + names[0].len() < t.len() && is_space(
        t[i + 1 + names[0].len()],
    )) {
        lemma_tag_end(t, i, names.drop_first());
    }
}

pub proof fn lemma_attr_at(t: Seq<char>, p: int, attr: Seq<char>)
    requires
        0 <= p,
        attr_at(t, p, attr) is Some,
    ensures
        in_order(p, attr_at(t, p, attr), t.len() as int),
{
    let a = skip_ws(t, p + attr.len());
    lemma_skip_ws(t, p + attr.len());
    let b = skip_ws(t, a + 1);
    lemma_skip_ws(t, a + 1);
    let ve = find_quote(t, b + 1);
    lemma_find_quote(t, b + 1);
    crate::directives::lemma_find_char(t, ve + 1, '>');
}

pub proof fn lemma_last_attr(t: Seq<char>, lo: int, k: int, attr: Seq<char>)
    requires
        0 <= lo,
        last_attr(t, lo, k, attr) is Some,
    ensures
        in_order(lo, last_attr(t, lo, k, attr), t.len() as int),
    decreases k - lo,
{
    if attr_at(t, k - 1, attr) is Some {
        lemma_attr_at(t, k - 1, attr);
    } else {
        lemma_last_attr(t, lo, k - 1, attr);
    }
}

pub proof fn lemma_link_at(t: Seq<char>, i: int, names: Seq<Seq<char>>, attr: Seq<char>)
    requires
        link_at(t, i, names, attr) is Some,
    ensures
        in_order(i, link_at(t, i, names, attr), t.len() as int),
{
    lemma_tag_end(t, i, names);
    let ne = tag_end(t, i, names)->0;
    lemma_last_attr(t, ne + 1, find_char(t, ne, '>'), attr);
}

/// Every value that a pass finds in `t` is left as it is by that pass.
pub open spec fn pass_keeps_values(
    t: Seq<char>,
    names: Seq<Seq<char>>,
    attr: Seq<char>,
    srcset: bool,
    doc: Seq<char>,
    root: Seq<char>,
) -> bool {
    forall|i: int|
        #![trigger link_at(t, i, names, attr)]
        link_at(t, i, names, attr) matches Some(v) ==> new_value(
            t.subrange(v.0, v.1),
            srcset,
            doc,
            root,
        ) == t.subrange(v.0, v.1)
}

pub proof fn lemma_pass_keeps(
    t: Seq<char>,
    i: int,
    names: Seq<Seq<char>>,
    attr: Seq<char>,
    srcset: bool,
    doc: Seq<char>,
    root: Seq<char>,
)
    requires
        0 <= i <= t.len(),
        pass_keeps_values(t, names, attr, srcset, doc, root),
    ensures
        rewrite_from(t, i, names, attr, srcset, doc, root) == t.subrange(i, t.len() as int),
    decreases t.len() - i,
{
    if i < t.len() {
        if advances(link_at(t, i, names, attr), i, t.len() as int) {
            let v = link_at(t, i, names, attr)->0;
            lemma_link_at(t, i, names, attr);
            lemma_pass_keeps(t, v.2, names, attr, srcset, doc, root);
            assert(t.subrange(i, v.0) + t.subrange(v.0, v.1) + t.subrange(v.1, v.2) + t.subrange(
                v.2,
                t.len() as int,
            ) =~= t.subrange(i, t.len() as int));
        } else {
            lemma_pass_keeps(t, i + 1, names, attr, srcset, doc, root);
            assert(seq![t[i]] + t.subrange(i + 1, t.len() as int) =~= t.subrange(
                i,
                t.len() as int,
            ));
        }
    } else {
        assert(t.subrange(i, t.len() as int) =~= seq![]);
    }
}

/// Every value of `attr` in the tags of `names` is a URL outside the site.
pub open spec fn only_remote(t: Seq<char>, names: Seq<Seq<char>>, attr: Seq<char>) -> bool {
    forall|i: int|
        #![trigger link_at(t, i, names, attr)]
        link_at(t, i, names, attr) matches Some(v) ==> !is_local(t.subrange(v.0, v.1))
}

/// No candidate of any `srcset` value names a file of the site.
pub open spec fn only_remote_srcset(t: Seq<char>) -> bool {
    forall|i: int|
        #![trigger link_at(t, i, srcset_tags(), "srcset"@)]
        link_at(t, i, srcset_tags(), "srcset"@) matches Some(v) ==> remote_candidates(t.subrange(v.0, v.1))
}

/// URLs outside the site (`https://...`, `mailto:...`, `#...` and the other
/// schemes) are kept byte for byte: a document whose attributes hold only such
/// URLs comes out of link rewriting unchanged.
pub proof fn lemma_remote_links_kept(html: Seq<char>, doc: Seq<char>, root: Seq<char>)
    requires
        only_remote(html, href_tags(), "href"@),
        only_remote(html, src_tags(), "src"@),
        only_remote(html, data_tags(), "data"@),
        only_remote(html, poster_tags(), "poster"@),
        only_remote(html, action_tags(), "action"@),
        only_remote_srcset(html),
    ensures
        rewrite_links_spec(html, doc, root) == html,
{
    assert(html.subrange(0, html.len() as int) =~= html);
    assert(pass_keeps_values(html, href_tags(), "href"@, false, doc, root));
    lemma_pass_keeps(html, 0, href_tags(), "href"@, false, doc, root);
    assert(pass_keeps_values(html, src_tags(), "src"@, false, doc, root));
    lemma_pass_keeps(html, 0, src_tags(), "src"@, false, doc, root);
    assert(pass_keeps_values(html, data_tags(), "data"@, false, doc, root));
    lemma_pass_keeps(html, 0, data_tags(), "data"@, false, doc, root);
    assert(pass_keeps_values(html, poster_tags(), "poster"@, false, doc, root));
    lemma_pass_keeps(html, 0, poster_tags(), "poster"@, false, doc, root);
    assert(pass_keeps_values(html, action_tags(), "action"@, false, doc, root));
    lemma_pass_keeps(html, 0, action_tags(), "action"@, false, doc, root);
    assert forall|i: int|
        #![trigger link_at(html, i, srcset_tags(), "srcset"@)]
        link_at(html, i, srcset_tags(), "srcset"@) is Some implies new_value(
            value_of(html, link_at(html, i, srcset_tags(), "srcset"@)),
            true,
            doc,
            root,
        ) == value_of(html, link_at(html, i, srcset_tags(), "srcset"@)) by {
        let v = link_at(html, i, srcset_tags(), "srcset"@)->0;
        lemma_remote_srcset_kept(html.subrange(v.0, v.1), doc, root);
    }
    lemma_pass_keeps(html, 0, srcset_tags(), "srcset"@, true, doc, root);
}

pub proof fn lemma_last_index(s: Seq<char>, k: int, c: char)
    requires
        0 <= k <= s.len(),
        k > 0 && s[0] == c,
    ensures
        last_index(s, k, c) matches Some(j) && 0 <= j < k,
    decreases k,
{
    if s[k - 1] != c {
        lemma_last_index(s, k - 1, c);
    }
}

pub proof fn lemma_encode_plain(s: Seq<char>)
    requires
        forall|k: int| 0 <= k < s.len() ==> is_plain(#[trigger] s[k]),
    ensures
        encode_path(s) == s,
    decreases s.len(),
{
    crate::directives::lemma_find_char(s, 0, '/');
    let k = find_char(s, 0, '/');
    if k < s.len() {
        let a = s.subrange(0, k);
        let b = s.subrange(k + 1, s.len() as int);
        assert forall|j: int| 0 <= j < a.len() implies is_plain(#[trigger] a[j]) by {
            assert(a[j] == s[j]);
        }
        assert forall|j: int| 0 <= j < b.len() implies is_plain(#[trigger] b[j]) by {
            assert(b[j] == s[k + 1 + j]);
        }
        lemma_specials_plain(a);
        lemma_encode_plain(b);
        assert(a + seq!['/'] + b =~= s);
    } else {
        lemma_specials_plain(s);
    }
}

/// A link that rewriting has already made relative (and that needs no encoding)
/// is kept as it is by a second rewrite from an absolute document path.
pub proof fn lemma_relative_link_kept(u: Seq<char>, doc: Seq<char>, root: Seq<char>)
    requires
        !is_absolute(u),
        is_absolute(doc),
        forall|k: int| 0 <= k < u.len() ==> is_plain(#[trigger] u[k]),
    ensures
        relative_link(u, doc, root) == u,
{
    lemma_last_index(doc, doc.len() as int, '/');
    lemma_encode_plain(u);
}

/// A URL that a rewrite keeps: outside the site, or already relative and plain.
pub open spec fn settled(u: Seq<char>) -> bool {
    !is_local(u) || (!is_absolute(u) && forall|k: int| 0 <= k < u.len() ==> is_plain(#[trigger] u[k]))
}

/// Every candidate of a `srcset` list holds a settled URL.
pub open spec fn settled_candidates(s: Seq<char>) -> bool
    decreases s.len(),
{
    let k = find_char(s, 0, ',');
    let head = if k < 0 || k >= s.len() { s } else { s.subrange(0, k) };
    &&& (url_start(head) < head.len() ==> settled(head.subrange(url_start(head), url_end(head))))
    &&& (0 <= k < s.len() ==> settled_candidates(s.subrange(k + 1, s.len() as int)))
}

pub proof fn lemma_settled_entry(e: Seq<char>, doc: Seq<char>, root: Seq<char>)
    requires
        is_absolute(doc),
        url_start(e) < e.len() ==> settled(e.subrange(url_start(e), url_end(e))),
    ensures
        srcset_entry(e, doc, root) == e,
{
    if candidate_is_local(e) {
        let u = e.subrange(url_start(e), url_end(e));
        lemma_skip_ws(e, 0);
        lemma_find_space(e, url_start(e));
        lemma_relative_link_kept(u, doc, root);
        assert(e.subrange(0, url_start(e)) + u + e.subrange(url_end(e), e.len() as int) =~= e);
    }
}

pub proof fn lemma_settled_srcset_kept(s: Seq<char>, doc: Seq<char>, root: Seq<char>)
    requires
        is_absolute(doc),
        settled_candidates(s),
    ensures
        srcset_rewrite(s, doc, root) == s,
    decreases s.len(),
{
    let k = find_char(s, 0, ',');
    crate::directives::lemma_find_char(s, 0, ',');
    if 0 <= k < s.len() {
        lemma_settled_entry(s.subrange(0, k), doc, root);
        lemma_settled_srcset_kept(s.subrange(k + 1, s.len() as int), doc, root);
        assert(s.subrange(0, k) + seq![','] + s.subrange(k + 1, s.len() as int) =~= s);
    } else {
        lemma_settled_entry(s, doc, root);
    }
}

/// Every value of `attr` in the tags of `names` is settled.
pub open spec fn only_settled(t: Seq<char>, names: Seq<Seq<char>>, attr: Seq<char>) -> bool {
    forall|i: int|
        #![trigger link_at(t, i, names, attr)]
        link_at(t, i, names, attr) matches Some(v) ==> settled(t.subrange(v.0, v.1))
}

/// Every `srcset` value holds settled candidates only.
pub open spec fn only_settled_srcset(t: Seq<char>) -> bool {
    forall|i: int|
        #![trigger link_at(t, i, srcset_tags(), "srcset"@)]
        link_at(t, i, srcset_tags(), "srcset"@) matches Some(v) ==> settled_candidates(t.subrange(v.0, v.1))
}

/// Rewriting is stable on what it produces: a document (at an absolute path)
/// whose links are outside the site or already relative, in characters that need
/// no encoding, comes out of link rewriting unchanged.
pub proof fn lemma_settled_links_kept(html: Seq<char>, doc: Seq<char>, root: Seq<char>)
    requires
        is_absolute(doc),
        only_settled(html, href_tags(), "href"@),
        only_settled(html, src_tags(), "src"@),
        only_settled(html, data_tags(), "data"@),
        only_settled(html, poster_tags(), "poster"@),
        only_settled(html, action_tags(), "action"@),
        only_settled_srcset(html),
    ensures
        rewrite_links_spec(html, doc, root) == html,
{
    assert forall|u: Seq<char>| settled(u) implies new_value(u, false, doc, root) == u by {
        if is_local(u) {
            lemma_relative_link_kept(u, doc, root);
        }
    }
    assert(pass_keeps_values(html, href_tags(), "href"@, false, doc, root));
    lemma_pass_keeps(html, 0, href_tags(), "href"@, false, doc, root);
    assert(html.subrange(0, html.len() as int) =~= html);
    assert(pass_keeps_values(html, src_tags(), "src"@, false, doc, root));
    lemma_pass_keeps(html, 0, src_tags(), "src"@, false, doc, root);
    assert(pass_keeps_values(html, data_tags(), "data"@, false, doc, root));
    lemma_pass_keeps(html, 0, data_tags(), "data"@, false, doc, root);
    assert(pass_keeps_values(html, poster_tags(), "poster"@, false, doc, root));
    lemma_pass_keeps(html, 0, poster_tags(), "poster"@, false, doc, root);
    assert(pass_keeps_values(html, action_tags(), "action"@, false, doc, root));
    lemma_pass_keeps(html, 0, action_tags(), "action"@, false, doc, root);
    assert forall|i: int|
        #![trigger link_at(html, i, srcset_tags(), "srcset"@)]
        link_at(html, i, srcset_tags(), "srcset"@) is Some implies new_value(
            value_of(html, link_at(html, i, srcset_tags(), "srcset"@)),
            true,
            doc,
            root,
        ) == value_of(html, link_at(html, i, srcset_tags(), "srcset"@)) by {
        let v = link_at(html, i, srcset_tags(), "srcset"@)->0;
        lemma_settled_srcset_kept(html.subrange(v.0, v.1), doc, root);
    }
    lemma_pass_keeps(html, 0, srcset_tags(), "srcset"@, true, doc, root);
}

} // verus!
