//! The tag index and the pages generated for each tag.
use vstd::prelude::*;
use crate::metadata::{Date, Metadata};
use crate::order::{is_stable_order, stable_order};
use crate::text::{append, chars_of, replace_all_spec, replace_all_token, string_of};
use crate::directives::{block_text, blocks_from, first_block_from, first_block_fragment, repeat, replace_blocks};

verus! {

// ----- name order -----

/// Lexicographic order of texts by character (the order of their UTF-8 bytes).
pub open spec fn lex_lt(a: Seq<char>, b: Seq<char>) -> bool
    decreases a.len(),
{
    if a.len() == 0 {
        b.len() > 0
    } else if b.len() == 0 {
        false
    } else if a[0] != b[0] {
        a[0] < b[0]
    } else {
        lex_lt(a.drop_first(), b.drop_first())
    }
}

pub proof fn lemma_lex(a: Seq<char>, b: Seq<char>, c: Seq<char>)
    ensures
        !lex_lt(a, a),
        a != b ==> lex_lt(a, b) || lex_lt(b, a),
        lex_lt(a, b) ==> !lex_lt(b, a),
        lex_lt(a, b) && lex_lt(b, c) ==> lex_lt(a, c),
    decreases a.len(),
{
    if a.len() > 0 && b.len() > 0 && c.len() > 0 {
        lemma_lex(a.drop_first(), b.drop_first(), c.drop_first());
    } else if a.len() > 0 && b.len() > 0 {
        lemma_lex(a.drop_first(), b.drop_first(), a.drop_first());
    } else if a.len() > 0 {
        lemma_lex(a.drop_first(), a.drop_first(), a.drop_first());
    }
    if a.len() > 0 && b.len() > 0 && a[0] == b[0] && a.drop_first() == b.drop_first() {
        assert(a =~= seq![a[0]] + a.drop_first());
        assert(b =~= seq![b[0]] + b.drop_first());
    }
    if a.len() == 0 && b.len() == 0 {
        assert(a =~= b);
    }
}

fn lex_lt_exec(a: &Vec<char>, b: &Vec<char>) -> (r: bool)
    ensures
        r == lex_lt(a@, b@),
{
    let mut k: usize = 0;
    assert(a@.subrange(0, a@.len() as int) =~= a@);
    assert(b@.subrange(0, b@.len() as int) =~= b@);
    while k < a.len() && k < b.len() && a[k] == b[k]
        invariant
            k <= a@.len(),
            k <= b@.len(),
            lex_lt(a@, b@) == lex_lt(a@.subrange(k as int, a@.len() as int), b@.subrange(
                k as int,
                b@.len() as int,
            )),
        decreases a@.len() - k,
    {
        let ghost sa = a@.subrange(k as int, a@.len() as int);
        let ghost sb = b@.subrange(k as int, b@.len() as int);
        assert(sa.drop_first() =~= a@.subrange(k + 1, a@.len() as int));
        assert(sb.drop_first() =~= b@.subrange(k + 1, b@.len() as int));
        k += 1;
    }
    proof {
        assert(a@.subrange(0, a@.len() as int) =~= a@);
        assert(b@.subrange(0, b@.len() as int) =~= b@);
    }
    if k == a.len() {
        k < b.len()
    } else if k == b.len() {
        false
    } else {
        a[k] < b[k]
    }
}

// ----- the index -----

/// The pages that carry a tag, and where the tag's own page is published.
#[derive(Clone, Debug)]
pub struct TagPage {
    /// Path of the tag page from the site root.
    pub path: String,
    /// Metadata of the pages that carry the tag.
    pub meta: Vec<Metadata>,
}

/// One tag of the index.
pub struct TagEntry {
    pub name: String,
    pub page: TagPage,
}

/// Every tag of the site, in name order.
pub struct TagIndex {
    pub entries: Vec<TagEntry>,
}

/// What the tag cloud of a page needs of one tag: name, page path, number of pages.
pub open spec fn entry_view(e: TagEntry) -> (Seq<char>, Seq<char>, nat) {
    (e.name@, e.page.path@, e.page.meta@.len())
}

impl TagIndex {
    pub open spec fn view(&self) -> Seq<(Seq<char>, Seq<char>, nat)> {
        self.entries@.map_values(|e: TagEntry| entry_view(e))
    }

    pub open spec fn names(&self) -> Seq<Seq<char>> {
        self.entries@.map_values(|e: TagEntry| e.name@)
    }

    /// Names strictly ascending: each tag once, in name order.
    pub open spec fn wf(&self) -> bool {
        forall|a: int, b: int|
            0 <= a < b < self.entries@.len() ==> lex_lt(
                #[trigger] self.entries@[a].name@,
                #[trigger] self.entries@[b].name@,
            )
    }

    pub fn new() -> (r: TagIndex)
        ensures
            r.wf(),
            r.entries@.len() == 0,
    {
        TagIndex { entries: Vec::new() }
    }

    pub fn len(&self) -> (r: usize)
        ensures
            r == self.entries@.len(),
    {
        self.entries.len()
    }

    /// Records that the page described by `meta` carries `tag`.
    pub fn add(&mut self, tag: &str, meta: Metadata)
        requires
            old(self).wf(),
        ensures
            final(self).wf(),
            final(self).names().to_set() == old(self).names().to_set().insert(tag@),
            exists|p: int| #[trigger] added_at(old(self).entries@, final(self).entries@, p, tag@, meta),
    {
        let ghost m0 = meta;
        let ghost start = self.entries@;
        let name = chars_of(tag);
        let mut p: usize = 0;
        while p < self.entries.len() && lex_lt_exec(&chars_of(self.entries[p].name.as_str()), &name)
            invariant
                self.wf(),
                p <= self.entries@.len(),
                forall|a: int| 0 <= a < p ==> lex_lt(#[trigger] self.entries@[a].name@, name@),
            decreases self.entries@.len() - p,
        {
            p += 1;
        }
        let ghost old_names = self.names();
        if p < self.entries.len() && crate::directives::vec_eq(
            &chars_of(self.entries[p].name.as_str()),
            &name,
        ) {
            let mut e = self.entries.remove(p);
            e.page.meta.push(meta);
            self.entries.insert(p, e);
            proof {
                assert(self.names() =~= old_names);
                assert(old_names[p as int] == tag@);
                assert(self.entries@ =~= start.update(p as int, self.entries@[p as int]));
                assert(added_at(start, self.entries@, p as int, tag@, m0));
                assert(old_names.to_set().insert(tag@) =~= old_names.to_set());
            }
        } else {
            let ghost old_entries = self.entries@;
            proof {
                if p < old_entries.len() {
                    lemma_lex(name@, old_entries[p as int].name@, name@);
                    assert forall|b: int| p <= b < old_entries.len() implies lex_lt(
                        name@,
                        #[trigger] old_entries[b].name@,
                    ) by {
                        if b > p {
                            lemma_lex(name@, old_entries[p as int].name@, old_entries[b].name@);
                        }
                    }
                }
            }
            let mut meta_list: Vec<Metadata> = Vec::new();
            meta_list.push(meta);
            self.entries.insert(
                p,
                TagEntry { name: string_of(&name), page: TagPage { path: String::new(), meta: meta_list } },
            );
            proof {
                assert forall|a: int, b: int|
                    0 <= a < b < self.entries@.len() implies lex_lt(
                    #[trigger] self.entries@[a].name@,
                    #[trigger] self.entries@[b].name@,
                ) by {
                    if b < p {
                    } else if b == p {
                    } else if a < p {
                        lemma_lex(old_entries[a].name@, name@, old_entries[b - 1].name@);
                    } else if a == p {
                    } else {
                    }
                }
                assert(self.names() =~= old_names.insert(p as int, tag@));
                assert(self.entries@ =~= start.insert(p as int, self.entries@[p as int]));
                assert forall|j: int| 0 <= j < start.len() implies #[trigger] start[j].name@ != tag@ by {
                    if j < p {
                        lemma_lex(start[j].name@, name@, name@);
                    } else {
                        lemma_lex(name@, start[j].name@, name@);
                    }
                }
                assert(self.entries@[p as int].page.meta@ =~= seq![m0]);
                assert(added_at(start, self.entries@, p as int, tag@, m0));
                assert(self.names().to_set() =~= old_names.to_set().insert(tag@)) by {
                    assert forall|x| #[trigger] self.names().to_set().contains(x) implies old_names.to_set().insert(tag@).contains(x) by {
                        let k = choose|k: int| 0 <= k < self.names().len() && self.names()[k] == x;
                        if k < p {
                            assert(old_names[k] == x);
                        } else if k > p {
                            assert(old_names[k - 1] == x);
                        }
                    }
                    assert forall|x| #[trigger] old_names.to_set().insert(tag@).contains(x) implies self.names().to_set().contains(x) by {
                        if x == tag@ {
                            assert(self.names()[p as int] == x);
                        } else {
                            let k = choose|k: int| 0 <= k < old_names.len() && old_names[k] == x;
                            if k < p {
                                assert(self.names()[k] == x);
                            } else {
                                assert(self.names()[k + 1] == x);
                            }
                        }
                    }
                }
            }
        }
    }
}

/// `new` is `old` with `meta` recorded under `tag` at position `p`: appended to
/// the list of an existing entry, or in a new entry inserted there.
pub open spec fn added_at(old: Seq<TagEntry>, new: Seq<TagEntry>, p: int, tag: Seq<char>, meta: Metadata) -> bool {
    ||| {
        &&& 0 <= p < old.len()
        &&& old[p].name@ == tag
        &&& new == old.update(p, new[p])
        &&& new[p].name == old[p].name
        &&& new[p].page.path == old[p].page.path
        &&& new[p].page.meta@ == old[p].page.meta@.push(meta)
    }
    ||| {
        &&& 0 <= p <= old.len()
        &&& forall|j: int| 0 <= j < old.len() ==> #[trigger] old[j].name@ != tag
        &&& new == old.insert(p, new[p])
        &&& new[p].name@ == tag
        &&& new[p].page.path@ == Seq::<char>::empty()
        &&& new[p].page.meta@ == seq![meta]
    }
}

// ----- tag clouds and tag pages -----

/// The font size of a tag's link: 11, plus one per page carrying the tag, up to 18.
pub open spec fn link_size(n: nat) -> nat {
    11 + if n < 7 { n } else { 7 }
}

pub open spec fn digit_char(n: nat) -> char {
    ((48 + n) as u8) as char
}

/// A number of two digits written in decimal.
pub open spec fn two_digits(k: nat) -> Seq<char> {
    seq![digit_char(k / 10), digit_char(k % 10)]
}

/// The link size of a tag with `n` pages, as text.
pub fn link_size_text(n: usize) -> (r: Vec<char>)
    ensures
        r@ == two_digits(link_size(n as nat)),
        10 <= link_size(n as nat) <= 18,
{
    let k: usize = 11 + if n < 7 { n } else { 7 };
    let mut r: Vec<char> = Vec::new();
    r.push(((48 + k / 10) as u8) as char);
    r.push(((48 + k % 10) as u8) as char);
    r
}

/// The links of a tag page: `fragment` once per page of `pages`, with
/// `{ page.link }` and `{ page.title }` filled in.
pub open spec fn page_links(fragment: Seq<char>, pages: Seq<(Seq<char>, Seq<char>)>) -> Seq<char>
    decreases pages.len(),
{
    if pages.len() == 0 {
        seq![]
    } else {
        let p = pages.last();
        page_links(fragment, pages.drop_last()) + replace_all_spec(
            replace_all_spec(fragment, "page.link"@, p.0),
            "page.title"@,
            p.1,
        )
    }
}

/// The text of the page of tag `name`: `{ title }` is the tag name, and each
/// `{ pages '...' }` block becomes the links to `pages` (path, title), built from
/// the first such block.
pub open spec fn tag_page_spec(template: Seq<char>, name: Seq<char>, pages: Seq<(Seq<char>, Seq<char>)>) -> Seq<char> {
    let t = replace_all_spec(template, "title"@, name);
    let links = match first_block_from(t, 0, "pages"@) {
        Some(v) => page_links(t.subrange(v.0, v.1), pages),
        None => seq![],
    };
    blocks_from(t, 0, "pages"@, 0, Some(links))
}

pub open spec fn link_and_title(m: Metadata) -> (Seq<char>, Seq<char>) {
    (m.path@, m.title@)
}

/// The (path, title) of each page, in the order `order` gives.
pub open spec fn ordered_links(metas: Seq<Metadata>, order: Seq<usize>) -> Seq<(Seq<char>, Seq<char>)> {
    order.map_values(|k: usize| link_and_title(metas[k as int]))
}

pub open spec fn pairs_view(v: Seq<(String, String)>) -> Seq<(Seq<char>, Seq<char>)> {
    v.map_values(|p: (String, String)| (p.0@, p.1@))
}

/// The text of the page of tag `name`, listing `pages` (path, title) in that order.
pub fn tag_page_text(template: &str, name: &str, pages: &Vec<(String, String)>) -> (r: String)
    ensures
        r@ == tag_page_spec(
            template@,
            name@,
            pairs_view(pages@),
        ),
{
    let ghost pv = pairs_view(pages@);
    let t = replace_all_token(&chars_of(template), &chars_of("title"), &chars_of(name));
    let links = match first_block_fragment(&t, &chars_of("pages")) {
        Some(frag) => {
            let mut out: Vec<char> = Vec::new();
            let mut k: usize = 0;
            while k < pages.len()
                invariant
                    k <= pages@.len(),
                    pv == pairs_view(pages@),
                    out@ == page_links(frag@, pv.subrange(0, k as int)),
                decreases pages@.len() - k,
            {
                let b1 = replace_all_token(&frag, &chars_of("page.link"), &chars_of(pages[k].0.as_str()));
                let b2 = replace_all_token(&b1, &chars_of("page.title"), &chars_of(pages[k].1.as_str()));
                append(&mut out, &b2);
                assert(pv.subrange(0, k + 1).drop_last() =~= pv.subrange(0, k as int));
                k += 1;
            }
            assert(pv.subrange(0, pages@.len() as int) =~= pv);
            out
        },
        None => Vec::new(),
    };
    let r = replace_blocks(&t, &chars_of("pages"), 0, &Some(links));
    string_of(&r)
}

pub proof fn lemma_repeat_len(m: Seq<char>, n: nat)
    ensures
        repeat(m, n).len() == n * m.len(),
    decreases n,
{
    if n > 0 {
        lemma_repeat_len(m, (n - 1) as nat);
        assert(repeat(m, n).len() == repeat(m, (n - 1) as nat).len() + m.len());
        assert(n * m.len() == (n - 1) * m.len() + m.len()) by (nonlinear_arith);
    } else {
        assert(0 * m.len() == 0) by (nonlinear_arith);
    }
}

/// A tag cloud has one block per tag: `{ tags 'm' }` becomes `m` written once per
/// tag of the site; and each tag's link size is 11 plus the number of its pages,
/// capped at 7.
pub proof fn lemma_tag_cloud(m: Seq<char>, n_tags: nat, n_pages: nat)
    ensures
        block_text(m, n_tags, None) == repeat(m, n_tags),
        repeat(m, n_tags).len() == n_tags * m.len(),
        link_size(n_pages) == 11 + if n_pages < 7 { n_pages } else { 7 },
        11 <= link_size(n_pages) <= 18,
{
    lemma_repeat_len(m, n_tags);
}

// ----- newest first -----

pub open spec fn meta_dates(ms: Seq<Metadata>) -> Seq<Option<Date>> {
    ms.map_values(|m: Metadata| m.date)
}

/// What a tag page lists of each page: its path and its title.
pub open spec fn meta_links(ms: Seq<Metadata>) -> Seq<(Seq<char>, Seq<char>)> {
    ms.map_values(|m: Metadata| (m.path@, m.title@))
}

/// `a` is a copy of `b`.
pub open spec fn same_meta(a: Metadata, b: Metadata) -> bool {
    a.header() == b.header() && a.path@ == b.path@ && a.date == b.date && a.title@ == b.title@
}

/// `new` holds the metadata of `old`, newest first (an absent date last, equal
/// dates in their old order).
pub open spec fn newest_first(old: Seq<Metadata>, new: Seq<Metadata>) -> bool {
    exists|ord: Seq<usize>|
        #[trigger] is_stable_order(meta_dates(old), true, ord) && new.len() == ord.len() && forall|j: int|
            0 <= j < new.len() ==> #[trigger] same_meta(new[j], old[ord[j] as int])
}

/// Copies of `ms`, newest first.
pub fn sort_newest_first(ms: &Vec<Metadata>) -> (r: Vec<Metadata>)
    ensures
        newest_first(ms@, r@),
{
    let mut dates: Vec<Option<Date>> = Vec::new();
    let mut i: usize = 0;
    while i < ms.len()
        invariant
            i <= ms@.len(),
            dates@ == meta_dates(ms@).subrange(0, i as int),
        decreases ms@.len() - i,
    {
        dates.push(ms[i].date);
        i += 1;
        assert(dates@ =~= meta_dates(ms@).subrange(0, i as int));
    }
    assert(dates@ =~= meta_dates(ms@));
    let ord = stable_order(&dates, true);
    let mut out: Vec<Metadata> = Vec::new();
    let mut j: usize = 0;
    while j < ord.len()
        invariant
            j <= ord@.len(),
            is_stable_order(meta_dates(ms@), true, ord@),
            out@.len() == j,
            forall|a: int| 0 <= a < j ==> #[trigger] same_meta(out@[a], ms@[ord@[a] as int]),
        decreases ord@.len() - j,
    {
        let m = ms[ord[j]].snapshot();
        out.push(m);
        j += 1;
    }
    assert(is_stable_order(meta_dates(ms@), true, ord@) && out@.len() == ord@.len() && forall|a: int|
        0 <= a < out@.len() ==> #[trigger] same_meta(out@[a], ms@[ord@[a] as int]));
    out
}

impl TagIndex {
    /// Orders the pages of every tag newest first.
    pub fn sort_pages_newest_first(&mut self)
        requires
            old(self).wf(),
        ensures
            final(self).wf(),
            final(self).entries@.len() == old(self).entries@.len(),
            forall|k: int|
                0 <= k < final(self).entries@.len() ==> #[trigger] final(self).entries@[k].name
                    == old(self).entries@[k].name && final(self).entries@[k].page.path
                    == old(self).entries@[k].page.path && newest_first(
                    old(self).entries@[k].page.meta@,
                    final(self).entries@[k].page.meta@,
                ),
    {
        let ghost old_entries = self.entries@;
        let mut k: usize = 0;
        while k < self.entries.len()
            invariant
                self.wf(),
                k <= self.entries@.len(),
                self.entries@.len() == old_entries.len(),
                old_entries == old(self).entries@,
                forall|j: int| k <= j < old_entries.len() ==> #[trigger] self.entries@[j] == old_entries[j],
                forall|j: int|
                    0 <= j < k ==> #[trigger] self.entries@[j].name == old_entries[j].name
                        && self.entries@[j].page.path == old_entries[j].page.path && newest_first(
                        old_entries[j].page.meta@,
                        self.entries@[j].page.meta@,
                    ),
            decreases old_entries.len() - k,
        {
            let ghost before = self.entries@;
            let mut e = self.entries.remove(k);
            let sorted = sort_newest_first(&e.page.meta);
            e.page.meta = sorted;
            self.entries.insert(k, e);
            proof {
                assert(self.entries@ =~= before.update(k as int, e));
                assert forall|a: int, b: int|
                    0 <= a < b < self.entries@.len() implies lex_lt(
                    #[trigger] self.entries@[a].name@,
                    #[trigger] self.entries@[b].name@,
                ) by {
                    assert(self.entries@[a].name == before[a].name);
                    assert(self.entries@[b].name == before[b].name);
                }
            }
            k += 1;
        }
    }
}

} // verus!
