//! The site: pages by group, the tag index, tag pages, and rendering in order.
use vstd::prelude::*;
use crate::text::{append, append_range, chars_of, string_of};
use crate::directives::{files_view, vec_eq, SourceFile};
use crate::metadata::{parse_header_spec, Date, Metadata, MetadataError};
use crate::order::{before, date_lt, is_stable_order, lemma_before_order, occurs, stable_order};
use crate::page::{
    file_name_start, html_path, includes_done, names_file, neighbor_link, render, site_path, under_root,
    Page, TemplateSource,
};
use crate::tags::{added_at, lex_lt, meta_links, pairs_view, same_meta, newest_first, tag_page_spec, tag_page_text, TagEntry, TagIndex};

verus! {

/// What `str::to_lowercase` makes of a text.
pub uninterp spec fn lower_of(s: Seq<char>) -> Seq<char>;

/// Relies on `str::to_lowercase`: the result depends on the text alone.
#[verifier::external_body]
fn lowercase(s: &str) -> (r: String)
    ensures
        r@ == lower_of(s@),
{
    s.to_lowercase()
}

/// The pages of one group (or of no group).
pub struct Group {
    pub name: Option<String>,
    pub pages: Vec<Page>,
}

/// Why a site cannot be built.
#[derive(Debug)]
pub enum SiteError {
    /// A header holds a date that does not parse.
    Metadata(MetadataError),
    /// A file that a directive names is missing.
    MissingFile(String),
    /// A generated page would lie outside the site root.
    OutsideRoot(String),
}

/// The site being built.
pub struct SiteGen {
    /// The site root.
    pub root: String,
    pub groups: Vec<Group>,
    pub tags: TagIndex,
    /// The text of the tag template, if one was found.
    pub tag_template: Option<String>,
    /// Where the tag template lies; tag pages are made beside it.
    pub tag_template_path: Option<String>,
    /// The year that `{ current_year }` becomes.
    pub current_year: String,
}

pub open spec fn dates_of(pages: Seq<Page>) -> Seq<Option<Date>> {
    pages.map_values(|p: Page| p.metadata.date)
}

/// The neighbour at position `a` of the order `ord`, if there is one.
pub open spec fn neighbor_at(pages: Seq<Page>, ord: Seq<usize>, a: int) -> Option<(Seq<char>, Seq<char>)> {
    if 0 <= a < ord.len() {
        Some((pages[ord[a] as int].metadata.title@, pages[ord[a] as int].metadata.path@))
    } else {
        None
    }
}

/// The neighbour at position `a` when the pages form a group; none otherwise.
pub open spec fn group_neighbor(grouped: bool, pages: Seq<Page>, ord: Seq<usize>, a: int) -> Option<
    (Seq<char>, Seq<char>),
> {
    if grouped {
        neighbor_at(pages, ord, a)
    } else {
        None
    }
}

/// `new` is `old` rendered with neighbours `prev` and `next`.
pub open spec fn page_rendered(
    old: Page,
    new: Page,
    prev: Option<(Seq<char>, Seq<char>)>,
    next: Option<(Seq<char>, Seq<char>)>,
    tags: Seq<(Seq<char>, Seq<char>, nat)>,
    files: Seq<(Seq<char>, Seq<char>)>,
) -> bool {
    &&& new.metadata == old.metadata
    &&& new.root_path == old.root_path
    &&& new.output_path == old.output_path
    &&& new.current_year == old.current_year
    &&& render(
        old.contents@,
        old.metadata,
        old.current_year@,
        prev,
        next,
        tags,
        files,
        old.output_path@,
        old.root_path@,
    ) == Ok::<Seq<char>, Seq<char>>(new.contents@)
}

/// Every page of `old` rendered into `new`, in the order `ord`; in a group the
/// neighbours of a page are the pages before and after it in that order.
pub open spec fn group_rendered_in(
    old: Seq<Page>,
    new: Seq<Page>,
    grouped: bool,
    ord: Seq<usize>,
    tags: Seq<(Seq<char>, Seq<char>, nat)>,
    files: Seq<(Seq<char>, Seq<char>)>,
) -> bool {
    &&& new.len() == old.len()
    &&& is_stable_order(dates_of(old), false, ord)
    &&& forall|a: int|
        0 <= a < ord.len() ==> #[trigger] page_rendered(
            old[ord[a] as int],
            new[ord[a] as int],
            group_neighbor(grouped, old, ord, a - 1),
            group_neighbor(grouped, old, ord, a + 1),
            tags,
            files,
        )
}

/// The pages of `new` are those of `old` rendered, in some stable order by date.
pub open spec fn group_done(
    old: Group,
    new: Group,
    tags: Seq<(Seq<char>, Seq<char>, nat)>,
    files: Seq<(Seq<char>, Seq<char>)>,
) -> bool {
    exists|ord: Seq<usize>|
        #[trigger] group_rendered_in(old.pages@, new.pages@, old.name is Some, ord, tags, files)
}

/// The missing file that keeps a page from rendering, if any.
pub open spec fn page_missing_file(p: Page, files: Seq<(Seq<char>, Seq<char>)>) -> Option<Seq<char>> {
    crate::page::missing_group_file(p.contents@, p.metadata, p.current_year@, files)
}

pub open spec fn all_wf(pages: Seq<Page>) -> bool {
    forall|i: int| 0 <= i < pages.len() ==> #[trigger] pages[i].wf()
}

pub proof fn lemma_order_distinct(d: Seq<Option<Date>>, ord: Seq<usize>, a: int, b: int)
    requires
        is_stable_order(d, false, ord),
        0 <= a < ord.len(),
        0 <= b < ord.len(),
        a != b,
    ensures
        ord[a] != ord[b],
{
    if a < b {
        assert(before(d, false, ord[a] as int, ord[b] as int));
    } else {
        assert(before(d, false, ord[b] as int, ord[a] as int));
    }
    lemma_before_order(d, false, ord[a] as int, ord[a] as int, ord[a] as int);
}

/// Renders every page of a group, oldest first (the order is returned). In a
/// group (`grouped`) each page is linked to the pages before and after it.
pub fn render_group(pages: &mut Vec<Page>, grouped: bool, tags: &TagIndex, files: &Vec<SourceFile>) -> (r: Result<Vec<usize>, String>)
    requires
        all_wf(old(pages)@),
        forall|i: int| 0 <= i < old(pages)@.len() ==> #[trigger] includes_done(old(pages)@[i].contents@, files_view(files@)),
    ensures
        all_wf(final(pages)@),
        final(pages)@.len() == old(pages)@.len(),
        r matches Ok(ord) ==> group_rendered_in(
            old(pages)@,
            final(pages)@,
            grouped,
            ord@,
            tags@,
            files_view(files@),
        ),
        r matches Err(k) ==> exists|i: int|
            0 <= i < old(pages)@.len() && #[trigger] page_missing_file(old(pages)@[i], files_view(files@))
                == Some(k@),
        (forall|i: int|
            0 <= i < old(pages)@.len() ==> #[trigger] page_missing_file(old(pages)@[i], files_view(files@))
                is None) ==> r is Ok,
{
    let ghost orig = pages@;
    let mut dates: Vec<Option<Date>> = Vec::new();
    let mut i: usize = 0;
    while i < pages.len()
        invariant
            orig == old(pages)@,
            pages@ == orig,
            i <= pages@.len(),
            dates@ == dates_of(orig).subrange(0, i as int),
        decreases pages@.len() - i,
    {
        dates.push(pages[i].metadata.date);
        i += 1;
        assert(dates@ =~= dates_of(orig).subrange(0, i as int));
    }
    assert(dates@ =~= dates_of(orig));
    let ord = stable_order(&dates, false);
    let n = ord.len();
    let mut a: usize = 0;
    while a < n
        invariant
            orig == old(pages)@,
            forall|i: int| 0 <= i < orig.len() ==> #[trigger] includes_done(orig[i].contents@, files_view(files@)),
            n == ord@.len(),
            n == orig.len(),
            a <= n,
            pages@.len() == orig.len(),
            all_wf(pages@),
            is_stable_order(dates_of(orig), false, ord@),
            forall|i: int| 0 <= i < n ==> #[trigger] pages@[i].metadata == orig[i].metadata,
            forall|b: int| a <= b < n ==> pages@[#[trigger] ord@[b] as int] == orig[ord@[b] as int],
            forall|b: int|
                0 <= b < a ==> #[trigger] page_rendered(
                    orig[ord@[b] as int],
                    pages@[ord@[b] as int],
                    group_neighbor(grouped, orig, ord@, b - 1),
                    group_neighbor(grouped, orig, ord@, b + 1),
                    tags@,
                    files_view(files@),
                ),
        decreases n - a,
    {
        let k = ord[a];
        let prev = if grouped && a > 0 {
            Some(pages[ord[a - 1]].get_metadata())
        } else {
            None
        };
        let next = if grouped && a + 1 < n {
            Some(pages[ord[a + 1]].get_metadata())
        } else {
            None
        };
        let ghost before_pages = pages@;
        let mut pg = pages.remove(k);
        assert(pg == orig[k as int]);
        let res = pg.generate(prev, next, tags, files);
        pages.insert(k, pg);
        proof {
            assert(pages@ =~= before_pages.update(k as int, pg));
            assert forall|b: int| a < b < n implies pages@[#[trigger] ord@[b] as int] == orig[ord@[b] as int] by {
                lemma_order_distinct(dates_of(orig), ord@, a as int, b);
            }
            assert forall|i: int| 0 <= i < n implies #[trigger] pages@[i].metadata == orig[i].metadata by {
                if i != k {
                    assert(pages@[i] == before_pages[i]);
                }
            }
            assert forall|b: int| 0 <= b < a implies pages@[#[trigger] ord@[b] as int] == before_pages[ord@[b] as int] by {
                lemma_order_distinct(dates_of(orig), ord@, a as int, b);
            }
        }
        match res {
            Ok(()) => {},
            Err(e) => {
                assert(pages@.len() == orig.len());
                assert(page_missing_file(orig[k as int], files_view(files@)) == Some(e@));
                return Err(e);
            },
        }
        a += 1;
    }
    Ok(ord)
}

impl SiteGen {
    pub open spec fn wf(&self) -> bool {
        &&& self.tags.wf()
        &&& forall|g: int| 0 <= g < self.groups@.len() ==> all_wf(#[trigger] self.groups@[g].pages@)
    }

    /// An empty site under `root`, rendered in `current_year`.
    pub fn new(root: &str, current_year: &str) -> (r: SiteGen)
        ensures
            r.wf(),
            r.root@ == root@,
            r.current_year@ == current_year@,
            r.groups@.len() == 0,
            r.tags.entries@.len() == 0,
            r.tag_template is None,
            r.tag_template_path is None,
    {
        SiteGen {
            root: root.to_string(),
            groups: Vec::new(),
            tags: TagIndex::new(),
            tag_template: None,
            tag_template_path: None,
            current_year: current_year.to_string(),
        }
    }

    /// Keeps the first tag template found; later ones are ignored.
    pub fn set_tag_template(&mut self, path: &str, text: &str)
        ensures
            old(self).tag_template is Some ==> *final(self) == *old(self),
            old(self).tag_template is None ==> (final(self).tag_template matches Some(t) && t@
                == text@),
            old(self).tag_template is None ==> (final(self).tag_template_path matches Some(p) && p@
                == path@),
            final(self).wf() == old(self).wf(),
            final(self).groups == old(self).groups,
            final(self).tags == old(self).tags,
    {
        if self.tag_template.is_none() {
            self.tag_template = Some(text.to_string());
            self.tag_template_path = Some(path.to_string());
        }
    }

    /// Adds a page whose metadata has been read: to the group it names, and to
    /// the tag index under each of its tags.
    pub fn add_page(&mut self, page: Page)
        requires
            old(self).wf(),
            page.wf(),
        ensures
            final(self).wf(),
            final(self).tags.names().to_set() == match page.metadata.tags {
                Some(t) => old(self).tags.names().to_set() + crate::metadata::strings_view(t@).to_set(),
                None => old(self).tags.names().to_set(),
            },
            exists|g: int| #[trigger] page_added_at(old(self).groups@, final(self).groups@, g, page),
            page.metadata.tags matches Some(t) ==> forall|j: int|
                0 <= j < t@.len() ==> #[trigger] tag_has_last(final(self).tags.entries@, t@[j]@, page.metadata),
    {
        let ghost pg = page;
        let ghost gs0 = self.groups@;
        match &page.metadata.tags {
            Some(tags) => {
                let ghost base = self.tags.names().to_set();
                let mut k: usize = 0;
                while k < tags.len()
                    invariant
                        self.tags.wf(),
                        k <= tags@.len(),
                        forall|g: int| 0 <= g < self.groups@.len() ==> all_wf(#[trigger] self.groups@[g].pages@),
                        self.groups == old(self).groups,
                        self.tags.names().to_set() == base + crate::metadata::strings_view(tags@).subrange(0, k as int).to_set(),
                        forall|j: int| 0 <= j < k ==> #[trigger] tag_has_last(self.tags.entries@, tags@[j]@, page.metadata),
                    decreases tags@.len() - k,
                {
                    let m = page.get_metadata();
                    let ghost before = self.tags.entries@;
                    let ghost mm = m;
                    self.tags.add(tags[k].as_str(), m);
                    proof {
                        let p = choose|p: int| #[trigger] added_at(before, self.tags.entries@, p, tags@[k as int]@, mm);
                        assert(same_meta(mm, page.metadata));
                        assert forall|j: int| 0 <= j < k + 1 implies #[trigger] tag_has_last(self.tags.entries@, tags@[j]@, page.metadata) by {
                            if j < k {
                                lemma_has_last_kept(before, self.tags.entries@, p, tags@[k as int]@, mm, tags@[j]@, page.metadata);
                            } else {
                                assert(self.tags.entries@[p].page.meta@.last() == mm);
                                assert(tag_has_last(self.tags.entries@, tags@[j]@, page.metadata));
                            }
                        }
                        let sv = crate::metadata::strings_view(tags@);
                        assert(sv.subrange(0, k + 1) =~= sv.subrange(0, k as int).push(tags@[k as int]@));
                        assert(sv.subrange(0, k as int).push(tags@[k as int]@).to_set() =~= sv.subrange(0, k as int).to_set().insert(tags@[k as int]@)) by {
                            sv.subrange(0, k as int).lemma_push_to_set_commute(tags@[k as int]@);
                        }
                    }
                    k += 1;
                }
                assert(crate::metadata::strings_view(tags@).subrange(0, tags@.len() as int) =~= crate::metadata::strings_view(tags@));
            },
            None => {},
        }
        let mut g: usize = 0;
        let mut found = false;
        while g < self.groups.len() && !found
            invariant
                g <= self.groups@.len(),
                found ==> g < self.groups@.len() && crate::metadata::opt_string_view(
                    self.groups@[g as int].name,
                ) == crate::metadata::opt_string_view(page.metadata.group),
            decreases self.groups@.len() - g + if found { 0int } else { 1int },
        {
            if same_group(&self.groups[g].name, &page.metadata.group) {
                found = true;
            } else {
                g += 1;
            }
        }
        let ghost before_groups = self.groups@;
        if found {
            let mut grp = self.groups.remove(g);
            grp.pages.push(page);
            self.groups.insert(g, grp);
            proof {
                assert(self.groups@ =~= before_groups.update(g as int, grp));
                assert(self.groups@[g as int].pages@.last() == pg);
                assert(self.groups@[g as int].name == before_groups[g as int].name);
                assert(self.groups@[g as int].pages@ =~= before_groups[g as int].pages@.push(pg));
                assert(page_added_at(gs0, self.groups@, g as int, pg));
                assert forall|h: int| 0 <= h < self.groups@.len() implies all_wf(#[trigger] self.groups@[h].pages@) by {
                    if h == g {
                        assert(all_wf(before_groups[h].pages@));
                    } else {
                        assert(self.groups@[h] == before_groups[h]);
                    }
                }
            }
        } else {
            let mut pages: Vec<Page> = Vec::new();
            let name = match &page.metadata.group {
                Some(s) => Some(s.clone()),
                None => None,
            };
            pages.push(page);
            self.groups.push(Group { name, pages });
            proof {
                let h = self.groups@.len() - 1;
                assert(self.groups@[h].pages@.last() == pg);
                assert(crate::metadata::opt_string_view(self.groups@[h].name)
                    == crate::metadata::opt_string_view(pg.metadata.group));
                assert(self.groups@[h].pages@ =~= seq![].push(pg));
                assert(page_added_at(gs0, self.groups@, h, pg));
                assert forall|x: int| 0 <= x < self.groups@.len() implies all_wf(#[trigger] self.groups@[x].pages@) by {
                    if x < h {
                        assert(self.groups@[x] == before_groups[x]);
                    } else {
                        assert(self.groups@[x].pages@ =~= seq![pg]);
                    }
                }
            }
        }
    }
}

/// `new` is `old` with `page` appended to the group at `g` (a new group when
/// `g` is past the end), named as the page's group; the other groups are kept.
pub open spec fn page_added_at(old: Seq<Group>, new: Seq<Group>, g: int, page: Page) -> bool {
    &&& 0 <= g <= old.len()
    &&& new.len() == if g < old.len() { old.len() } else { old.len() + 1 }
    &&& crate::metadata::opt_string_view(new[g].name) == crate::metadata::opt_string_view(page.metadata.group)
    &&& new[g].pages@ == (if g < old.len() { old[g].pages@ } else { Seq::<Page>::empty() }).push(page)
    &&& forall|h: int| 0 <= h < old.len() && h != g ==> #[trigger] new[h] == old[h]
}

/// The list of tag `t` ends with a copy of `m`.
pub open spec fn tag_has_last(es: Seq<TagEntry>, t: Seq<char>, m: Metadata) -> bool {
    exists|k: int|
        0 <= k < es.len() && #[trigger] es[k].name@ == t && es[k].page.meta@.len() > 0 && same_meta(
            es[k].page.meta@.last(),
            m,
        )
}

pub proof fn lemma_has_last_kept(
    old: Seq<TagEntry>,
    new: Seq<TagEntry>,
    p: int,
    t2: Seq<char>,
    m2: Metadata,
    t: Seq<char>,
    m: Metadata,
)
    requires
        tag_has_last(old, t, m),
        added_at(old, new, p, t2, m2),
        same_meta(m2, m),
    ensures
        tag_has_last(new, t, m),
{
    let k = choose|k: int|
        0 <= k < old.len() && #[trigger] old[k].name@ == t && old[k].page.meta@.len() > 0 && same_meta(
            old[k].page.meta@.last(),
            m,
        );
    if 0 <= p < old.len() && old[p].name@ == t2 && new == old.update(p, new[p]) {
        if k == p {
            assert(new[p].name@ == t);
        } else {
            assert(new[k] == old[k]);
        }
    } else {
        if k < p {
            assert(new[k] == old[k]);
        } else {
            assert(new[k + 1] == old[k]);
        }
    }
}

/// Where the page of tag `lower` is made: beside the tag template at `template_path`.
pub open spec fn tag_template_target(template_path: Seq<char>, lower: Seq<char>) -> Seq<char> {
    template_path.subrange(0, file_name_start(template_path)) + lower + ".sgpage"@
}

/// Where the first group of no name stands in `gs` (at or after `i`), or the
/// length of `gs` when there is none.
pub open spec fn none_index_from(gs: Seq<Group>, i: int) -> int
    decreases gs.len() - i,
{
    if i < 0 || i >= gs.len() {
        gs.len() as int
    } else if gs[i].name is None {
        i
    } else {
        none_index_from(gs, i + 1)
    }
}

pub open spec fn none_index(gs: Seq<Group>) -> int {
    none_index_from(gs, 0)
}

/// The pages of no group.
pub open spec fn ungrouped(gs: Seq<Group>) -> Seq<Page> {
    if 0 <= none_index(gs) < gs.len() {
        gs[none_index(gs)].pages@
    } else {
        seq![]
    }
}

pub proof fn lemma_none_index(gs: Seq<Group>, i: int, g: int)
    requires
        0 <= i <= g <= gs.len(),
        forall|h: int| i <= h < g ==> #[trigger] gs[h].name is Some,
        g < gs.len() ==> gs[g].name is None,
    ensures
        none_index_from(gs, i) == g,
    decreases g - i,
{
    if i < g {
        lemma_none_index(gs, i + 1, g);
    }
}

/// Where the page of tag `e` is made.
pub open spec fn tag_target(tp: Seq<char>, e: TagEntry) -> Seq<char> {
    tag_template_target(tp, lower_of(e.name@))
}

/// The template text of the page of tag `e`.
pub open spec fn tag_text(tm: Seq<char>, e: TagEntry) -> Seq<char> {
    tag_page_spec(tm, e.name@, meta_links(e.page.meta@))
}

/// The page of tag `e` lies under the site root.
pub open spec fn tag_target_ok(root: Seq<char>, tp: Seq<char>, e: TagEntry) -> bool {
    names_file(tag_target(tp, e)) && under_root(root, html_path(tag_target(tp, e)))
}

/// The page of tag `e` can be made.
pub open spec fn tag_ok(root: Seq<char>, tm: Seq<char>, tp: Seq<char>, e: TagEntry) -> bool {
    tag_target_ok(root, tp, e) && parse_header_spec(tag_text(tm, e)) is Ok
}

/// `p` is the page of tag `e`, and `e` records where it is published.
pub open spec fn tag_done(e: TagEntry, p: Page, root: Seq<char>, year: Seq<char>, tm: Seq<char>, tp: Seq<char>) -> bool {
    &&& p.root_path@ == root
    &&& p.output_path@ == html_path(tag_target(tp, e))
    &&& p.current_year@ == year
    &&& p.metadata.path@ == site_path(root, html_path(tag_target(tp, e)))
    &&& e.page.path@ == p.metadata.path@
    &&& p.wf()
    &&& match parse_header_spec(tag_text(tm, e)) {
        Ok((h, b)) => p.metadata.header() == h && p.contents@ == b,
        Err(_) => false,
    }
}

/// What making the tag pages did, from `old` to `new`, with template `tm` at `tp`.
pub open spec fn tags_made(old: SiteGen, new: SiteGen, tm: Seq<char>, tp: Seq<char>, r: Result<(), SiteError>) -> bool {
    let n = old.tags.entries@.len();
    let e = new.tags.entries@;
    &&& forall|k: int|
        0 <= k < n ==> #[trigger] e[k].name == old.tags.entries@[k].name && newest_first(
            old.tags.entries@[k].page.meta@,
            e[k].page.meta@,
        )
    &&& forall|h: int|
        0 <= h < old.groups@.len() && h != none_index(old.groups@) ==> #[trigger] new.groups@[h] == old.groups@[h]
    &&& (r matches Err(SiteError::OutsideRoot(p)) ==> exists|k: int|
        0 <= k < n && p@ == tag_target(tp, #[trigger] e[k]) && !tag_target_ok(old.root@, tp, e[k]))
    &&& (r matches Err(SiteError::Metadata(MetadataError::InvalidDate(x))) ==> exists|k: int|
        0 <= k < n && parse_header_spec(tag_text(tm, #[trigger] e[k])) == Err::<
            (crate::metadata::Header, Seq<char>),
            Seq<char>,
        >(x@))
    &&& (forall|k: int| 0 <= k < n ==> #[trigger] tag_ok(old.root@, tm, tp, e[k])) ==> r is Ok
    &&& r is Ok ==> {
        &&& ungrouped(new.groups@).len() == ungrouped(old.groups@).len() + n
        &&& forall|i: int|
            0 <= i < ungrouped(old.groups@).len() ==> #[trigger] ungrouped(new.groups@)[i] == ungrouped(
                old.groups@,
            )[i]
        &&& forall|k: int|
            0 <= k < n ==> #[trigger] tag_done(
                e[k],
                ungrouped(new.groups@)[ungrouped(old.groups@).len() + k],
                old.root@,
                old.current_year@,
                tm,
                tp,
            )
    }
}

/// Whether a template at `path` gives a page under `root`.
pub fn page_path_ok(root: &Vec<char>, path: &Vec<char>) -> (r: bool)
    ensures
        r == (names_file(path@) && under_root(root@, html_path(path@))),
{
    if path.len() == 0 || path[path.len() - 1] == '/' {
        return false;
    }
    let out = crate::page::html_path_exec(path);
    if root.len() > out.len() || !crate::text::has_at_exec(&out, 0, root) {
        return false;
    }
    let rest_len = out.len() - root.len();
    let ok = (root.len() > 0 && root[root.len() - 1] == '/') || rest_len == 0 || out[root.len()] == '/';
    proof {
        let rest = crate::page::below_root(root@, out@);
        assert(rest.len() == rest_len);
        if rest_len > 0 {
            assert(rest[0] == out@[root@.len() as int]);
        }
    }
    ok
}

impl SiteGen {
    /// Adds a page to the pages of no group.
    fn push_ungrouped(&mut self, page: Page)
        requires
            old(self).wf(),
            page.wf(),
        ensures
            final(self).wf(),
            final(self).tags == old(self).tags,
            final(self).root == old(self).root,
            final(self).current_year == old(self).current_year,
            final(self).tag_template == old(self).tag_template,
            final(self).tag_template_path == old(self).tag_template_path,
            ungrouped(final(self).groups@) == ungrouped(old(self).groups@).push(page),
            none_index(final(self).groups@) == none_index(old(self).groups@),
            final(self).groups@.len() >= old(self).groups@.len(),
            forall|h: int|
                0 <= h < old(self).groups@.len() && h != none_index(old(self).groups@) ==> #[trigger] final(self).groups@[h]
                    == old(self).groups@[h],
    {
        let ghost gs = self.groups@;
        let mut g: usize = 0;
        let mut found = false;
        while g < self.groups.len() && !found
            invariant
                gs == self.groups@,
                g <= gs.len(),
                found ==> g < gs.len() && gs[g as int].name is None,
                forall|h: int| 0 <= h < g ==> #[trigger] gs[h].name is Some,
            decreases gs.len() - g + if found { 0int } else { 1int },
        {
            if self.groups[g].name.is_none() {
                found = true;
            } else {
                g += 1;
            }
        }
        proof {
            lemma_none_index(gs, 0, g as int);
        }
        let ghost pg = page;
        if found {
            let mut grp = self.groups.remove(g);
            grp.pages.push(page);
            self.groups.insert(g, grp);
            proof {
                assert(self.groups@ =~= gs.update(g as int, grp));
                lemma_none_index(self.groups@, 0, g as int);
                assert forall|h: int| 0 <= h < self.groups@.len() implies all_wf(#[trigger] self.groups@[h].pages@) by {
                    if h == g {
                        assert(all_wf(gs[h].pages@));
                    } else {
                        assert(self.groups@[h] == gs[h]);
                    }
                }
            }
        } else {
            let mut pages: Vec<Page> = Vec::new();
            pages.push(page);
            self.groups.push(Group { name: None, pages });
            proof {
                assert(self.groups@ =~= gs.push(self.groups@[gs.len() as int]));
                lemma_none_index(self.groups@, 0, g as int);
                assert(self.groups@[g as int].pages@ =~= seq![pg]);
                assert(ungrouped(gs) =~= seq![]);
                assert forall|x: int| 0 <= x < self.groups@.len() implies all_wf(#[trigger] self.groups@[x].pages@) by {
                    if x < gs.len() {
                        assert(self.groups@[x] == gs[x]);
                    }
                }
            }
        }
    }

    /// Makes the page of every tag from the tag template (when there is one):
    /// the pages of each tag are first ordered newest first; `{ title }` becomes
    /// the tag name and `{ pages '...' }` the links to those pages. Each tag page
    /// is made beside the template, named after the tag in lower case, and joins
    /// the pages of no group, one per tag in name order.
    pub fn process_tags(&mut self) -> (r: Result<(), SiteError>)
        requires
            old(self).wf(),
        ensures
            final(self).wf(),
            old(self).tag_template is None || old(self).tag_template_path is None ==> r is Ok
                && *final(self) == *old(self),
            !(r matches Err(SiteError::MissingFile(_))),
            final(self).tags.entries@.len() == old(self).tags.entries@.len(),
            final(self).root == old(self).root,
            final(self).current_year == old(self).current_year,
            final(self).tag_template == old(self).tag_template,
            final(self).tag_template_path == old(self).tag_template_path,
            old(self).tag_template matches Some(tm) ==> (old(self).tag_template_path matches Some(tp) ==> (
            tags_made(*old(self), *final(self), tm@, tp@, r))),
    {
        let tmpl = match &self.tag_template {
            Some(t) => t.clone(),
            None => {
                return Ok(());
            },
        };
        let tpath = match &self.tag_template_path {
            Some(p) => chars_of(p.as_str()),
            None => {
                return Ok(());
            },
        };
        let ghost tm = tmpl@;
        let ghost tp = tpath@;
        let ghost old_self = *self;
        assert(old_self == *old(self));
        self.tags.sort_pages_newest_first();
        let ghost sorted = self.tags.entries@;
        let ghost old_ung = ungrouped(self.groups@);
        let ghost ni = none_index(self.groups@);
        let root = chars_of(self.root.as_str());
        let dir_end = crate::page::file_name_start_exec(&tpath);
        let mut k: usize = 0;
        while k < self.tags.entries.len()
            invariant
                self.wf(),
                self.tags.entries@.len() == sorted.len(),
                k <= sorted.len(),
                sorted.len() == old_self.tags.entries@.len(),
                forall|j: int| 0 <= j < sorted.len() ==> #[trigger] sorted[j].name == old_self.tags.entries@[j].name
                    && newest_first(old_self.tags.entries@[j].page.meta@, sorted[j].page.meta@),
                forall|j: int|
                    0 <= j < sorted.len() ==> #[trigger] self.tags.entries@[j].name == sorted[j].name
                        && self.tags.entries@[j].page.meta == sorted[j].page.meta,
                root@ == self.root@,
                self.root == old_self.root,
                self.current_year == old_self.current_year,
                self.tag_template == old_self.tag_template,
                self.tag_template_path == old_self.tag_template_path,
                old_self.tag_template_path matches Some(p) && p@ == tp,
                old_self.tag_template matches Some(t) && t@ == tm,
                tmpl@ == tm,
                tpath@ == tp,
                dir_end == file_name_start(tp),
                dir_end <= tp.len(),
                old_self == *old(self),
                old_ung == ungrouped(old_self.groups@),
                ni == none_index(old_self.groups@),
                none_index(self.groups@) == ni,
                self.groups@.len() >= old_self.groups@.len(),
                forall|h: int|
                    0 <= h < old_self.groups@.len() && h != ni ==> #[trigger] self.groups@[h]
                        == old_self.groups@[h],
                ungrouped(self.groups@).len() == old_ung.len() + k,
                forall|i: int| 0 <= i < old_ung.len() ==> #[trigger] ungrouped(self.groups@)[i] == old_ung[i],
                forall|j: int|
                    0 <= j < k ==> #[trigger] tag_done(
                        self.tags.entries@[j],
                        ungrouped(self.groups@)[old_ung.len() + j],
                        self.root@,
                        self.current_year@,
                        tm,
                        tp,
                    ),
            decreases sorted.len() - k,
        {
            let name = self.tags.entries[k].name.clone();
            let metas = &self.tags.entries[k].page.meta;
            let mut links: Vec<(String, String)> = Vec::new();
            let mut j: usize = 0;
            while j < metas.len()
                invariant
                    j <= metas@.len(),
                    links@.len() == j,
                    pairs_view(links@) == meta_links(metas@).subrange(0, j as int),
                decreases metas@.len() - j,
            {
                let ghost before = links@;
                links.push((metas[j].path.clone(), metas[j].title.clone()));
                assert(links@ == before.push((metas@[j as int].path, metas@[j as int].title)));
                assert forall|a: int| 0 <= a < j + 1 implies #[trigger] pairs_view(links@)[a] == meta_links(metas@).subrange(0, j + 1)[a] by {
                    if a < j {
                        assert(pairs_view(links@)[a] == pairs_view(before)[a]);
                    }
                }
                assert(pairs_view(links@) =~= meta_links(metas@).subrange(0, j + 1));
                j += 1;
            }
            assert(meta_links(metas@).subrange(0, metas@.len() as int) =~= meta_links(metas@));
            let contents = tag_page_text(tmpl.as_str(), name.as_str(), &links);
            let lower = lowercase(name.as_str());
            let mut path: Vec<char> = Vec::new();
            append_range(&mut path, &tpath, 0, dir_end);
            append(&mut path, &chars_of(lower.as_str()));
            append(&mut path, &chars_of(".sgpage"));
            let path_s = string_of(&path);
            proof {
                assert(path@ =~= tag_template_target(tp, lower_of(name@)));
                assert(contents@ == tag_text(tm, self.tags.entries@[k as int]));
            }
            if !page_path_ok(&root, &path) {
                proof {
                assert forall|j: int| 0 <= j < sorted.len() implies #[trigger] self.tags.entries@[j].name
                    == old(self).tags.entries@[j].name && newest_first(
                    old(self).tags.entries@[j].page.meta@,
                    self.tags.entries@[j].page.meta@,
                ) by {
                    assert(sorted[j].name == old_self.tags.entries@[j].name);
                    assert(self.tags.entries@[j].name == sorted[j].name);
                    assert(self.tags.entries@[j].page.meta == sorted[j].page.meta);
                    assert(newest_first(old_self.tags.entries@[j].page.meta@, sorted[j].page.meta@));
                }
                    let ek = self.tags.entries@[k as int];
                    assert(path_s@ == tag_target(tp, ek));
                    assert(!tag_target_ok(old(self).root@, tp, ek));
                    assert(!tag_ok(old(self).root@, tm, tp, ek));
                }
                return Err(SiteError::OutsideRoot(path_s));
            }
            let mut page = Page::new(self.root.as_str(), path_s.as_str(), &TemplateSource::Memory(contents), self.current_year.as_str());
            match page.process_metadata() {
                Ok(()) => {},
                Err(e) => {
                    proof {
                assert forall|j: int| 0 <= j < sorted.len() implies #[trigger] self.tags.entries@[j].name
                    == old(self).tags.entries@[j].name && newest_first(
                    old(self).tags.entries@[j].page.meta@,
                    self.tags.entries@[j].page.meta@,
                ) by {
                    assert(sorted[j].name == old_self.tags.entries@[j].name);
                    assert(self.tags.entries@[j].name == sorted[j].name);
                    assert(self.tags.entries@[j].page.meta == sorted[j].page.meta);
                    assert(newest_first(old_self.tags.entries@[j].page.meta@, sorted[j].page.meta@));
                }
                        let ek = self.tags.entries@[k as int];
                        match &e {
                            MetadataError::InvalidDate(x) => {
                                assert(parse_header_spec(tag_text(tm, ek)) == Err::<
                                    (crate::metadata::Header, Seq<char>),
                                    Seq<char>,
                                >(x@));
                            },
                        }
                        assert(!tag_ok(old(self).root@, tm, tp, ek));
                    }
                    return Err(SiteError::Metadata(e));
                },
            }
            let ghost before_entries = self.tags.entries@;
            let mut e = self.tags.entries.remove(k);
            e.page.path = page.metadata.path.clone();
            self.tags.entries.insert(k, e);
            proof {
                assert(self.tags.entries@ =~= before_entries.update(k as int, e));
                assert forall|a: int, b: int|
                    0 <= a < b < self.tags.entries@.len() implies lex_lt(
                    #[trigger] self.tags.entries@[a].name@,
                    #[trigger] self.tags.entries@[b].name@,
                ) by {
                    assert(self.tags.entries@[a].name == before_entries[a].name);
                    assert(self.tags.entries@[b].name == before_entries[b].name);
                }
            }
            let ghost pg = page;
            let ghost before_ung = ungrouped(self.groups@);
            self.push_ungrouped(page);
            proof {
                assert(tag_done(self.tags.entries@[k as int], pg, self.root@, self.current_year@, tm, tp));
                assert forall|j: int| 0 <= j < k + 1 implies #[trigger] tag_done(
                    self.tags.entries@[j],
                    ungrouped(self.groups@)[old_ung.len() + j],
                    self.root@,
                    self.current_year@,
                    tm,
                    tp,
                ) by {
                    if j < k {
                        assert(self.tags.entries@[j] == before_entries[j]);
                        assert(ungrouped(self.groups@)[old_ung.len() + j] == before_ung[old_ung.len() + j]);
                    }
                }
            }
            k += 1;
        }
        proof {
            assert forall|j: int| 0 <= j < sorted.len() implies #[trigger] self.tags.entries@[j].name
                == old(self).tags.entries@[j].name && newest_first(
                old(self).tags.entries@[j].page.meta@,
                self.tags.entries@[j].page.meta@,
            ) by {
                assert(sorted[j].name == old_self.tags.entries@[j].name);
                assert(self.tags.entries@[j].name == sorted[j].name);
                assert(self.tags.entries@[j].page.meta == sorted[j].page.meta);
                assert(newest_first(old_self.tags.entries@[j].page.meta@, sorted[j].page.meta@));
            }
        }
        proof {
            let n = sorted.len();
            assert(ungrouped(self.groups@).len() == ungrouped(old(self).groups@).len() + n);
            assert forall|j: int| 0 <= j < n implies #[trigger] tag_done(
                self.tags.entries@[j],
                ungrouped(self.groups@)[ungrouped(old(self).groups@).len() + j],
                old(self).root@,
                old(self).current_year@,
                tm,
                tp,
            ) by {
                assert(tag_done(
                    self.tags.entries@[j],
                    ungrouped(self.groups@)[old_ung.len() + j],
                    self.root@,
                    self.current_year@,
                    tm,
                    tp,
                ));
            }
            assert(tags_made(*old(self), *self, tm, tp, Ok(())));
        }
        Ok(())
    }

    /// Renders every page: the pages of a group oldest first, each linked to the
    /// pages before and after it; the pages of no group without neighbours.
    pub fn generate_pages(&mut self, files: &Vec<SourceFile>) -> (r: Result<(), SiteError>)
        requires
            old(self).wf(),
            forall|g: int, i: int|
                0 <= g < old(self).groups@.len() && 0 <= i < old(self).groups@[g].pages@.len() ==> #[trigger] includes_done(
                    old(self).groups@[g].pages@[i].contents@,
                    files_view(files@),
                ),
        ensures
            final(self).wf(),
            final(self).groups@.len() == old(self).groups@.len(),
            r is Ok ==> forall|g: int| 0 <= g < old(self).groups@.len() ==> #[trigger] group_done(
                old(self).groups@[g],
                final(self).groups@[g],
                old(self).tags@,
                files_view(files@),
            ),
            r is Err ==> (r matches Err(SiteError::MissingFile(_))),
            r matches Err(SiteError::MissingFile(k)) ==> exists|g: int, i: int|
                0 <= g < old(self).groups@.len() && 0 <= i < old(self).groups@[g].pages@.len()
                    && #[trigger] page_missing_file(old(self).groups@[g].pages@[i], files_view(files@))
                    == Some(k@),
            (forall|g: int, i: int|
                0 <= g < old(self).groups@.len() && 0 <= i < old(self).groups@[g].pages@.len()
                    ==> #[trigger] page_missing_file(old(self).groups@[g].pages@[i], files_view(files@))
                    is None) ==> r is Ok,
    {
        let ghost old_groups = self.groups@;
        let mut g: usize = 0;
        while g < self.groups.len()
            invariant
                self.wf(),
                g <= self.groups@.len(),
                self.groups@.len() == old_groups.len(),
                old_groups == old(self).groups@,
                forall|h: int, i: int|
                    0 <= h < old_groups.len() && 0 <= i < old_groups[h].pages@.len() ==> #[trigger] includes_done(
                        old_groups[h].pages@[i].contents@,
                        files_view(files@),
                    ),
                self.tags == old(self).tags,
                forall|h: int| g <= h < old_groups.len() ==> #[trigger] self.groups@[h] == old_groups[h],
                forall|h: int| 0 <= h < g ==> #[trigger] group_done(
                    old_groups[h],
                    self.groups@[h],
                    self.tags@,
                    files_view(files@),
                ),
            decreases old_groups.len() - g,
        {
            let ghost before_groups = self.groups@;
            let mut grp = self.groups.remove(g);
            let grouped = grp.name.is_some();
            proof {
                assert(all_wf(before_groups[g as int].pages@));
            }
            proof {
                assert(before_groups[g as int] == old_groups[g as int]);
                assert forall|i: int| 0 <= i < grp.pages@.len() implies #[trigger] includes_done(grp.pages@[i].contents@, files_view(files@)) by {
                    assert(includes_done(old_groups[g as int].pages@[i].contents@, files_view(files@)));
                }
            }
            let res = render_group(&mut grp.pages, grouped, &self.tags, files);
            self.groups.insert(g, grp);
            proof {
                assert(self.groups@ =~= before_groups.update(g as int, grp));
                assert forall|h: int| 0 <= h < self.groups@.len() implies all_wf(#[trigger] self.groups@[h].pages@) by {
                    if h != g {
                        assert(self.groups@[h] == before_groups[h]);
                    }
                }
                assert forall|h: int| g < h < old_groups.len() implies #[trigger] self.groups@[h] == old_groups[h] by {
                    assert(self.groups@[h] == before_groups[h]);
                }
            }
            match res {
                Ok(ord) => {
                    proof {
                        assert forall|h: int| 0 <= h < g + 1 implies #[trigger] group_done(
                            old_groups[h],
                            self.groups@[h],
                            self.tags@,
                            files_view(files@),
                        ) by {
                            if h == g {
                                assert(group_rendered_in(
                                    old_groups[h].pages@,
                                    self.groups@[h].pages@,
                                    old_groups[h].name is Some,
                                    ord@,
                                    self.tags@,
                                    files_view(files@),
                                ));
                            } else {
                                assert(self.groups@[h] == before_groups[h]);
                            }
                        }
                    }
                },
                Err(e) => {
                    proof {
                        let i = choose|i: int|
                            0 <= i < before_groups[g as int].pages@.len() && #[trigger] page_missing_file(
                                before_groups[g as int].pages@[i],
                                files_view(files@),
                            ) == Some(e@);
                        assert(before_groups[g as int] == old_groups[g as int]);
                        assert(page_missing_file(old_groups[g as int].pages@[i], files_view(files@)) == Some(e@));
                    }
                    return Err(SiteError::MissingFile(e));
                },
            }
            g += 1;
        }
        Ok(())
    }
}

/// Following `next` from the earliest page of a group visits every page, with
/// dates strictly ascending when the dates differ, and the last page's
/// `{ next.path }` is `#`.
pub proof fn lemma_next_chain(pages: Seq<Page>, ord: Seq<usize>, doc: Seq<char>, root: Seq<char>)
    requires
        is_stable_order(dates_of(pages), false, ord),
        forall|x: int, y: int|
            0 <= x < y < pages.len() ==> #[trigger] pages[x].metadata.date != #[trigger] pages[y].metadata.date,
    ensures
        forall|x: int| 0 <= x < pages.len() ==> #[trigger] occurs(ord, x),
        forall|a: int|
            0 <= a < ord.len() - 1 ==> date_lt(
                pages[#[trigger] ord[a] as int].metadata.date,
                pages[ord[a + 1] as int].metadata.date,
            ),
        forall|a: int|
            0 <= a < ord.len() - 1 ==> #[trigger] group_neighbor(true, pages, ord, a + 1) == Some(
                (pages[ord[a + 1] as int].metadata.title@, pages[ord[a + 1] as int].metadata.path@),
            ),
        neighbor_link(group_neighbor(true, pages, ord, ord.len() as int), doc, root) == seq!['#'],
{
    let d = dates_of(pages);
    assert forall|a: int|
        0 <= a < ord.len() - 1 implies date_lt(
            pages[#[trigger] ord[a] as int].metadata.date,
            pages[ord[a + 1] as int].metadata.date,
        ) by {
        assert(before(d, false, ord[a] as int, ord[a + 1] as int));
        let x = ord[a] as int;
        let y = ord[a + 1] as int;
        if x < y {
            assert(pages[x].metadata.date != pages[y].metadata.date);
        } else if y < x {
            assert(pages[y].metadata.date != pages[x].metadata.date);
        }
        lemma_order_distinct(d, ord, a, a + 1);
    }
}

fn same_group(a: &Option<String>, b: &Option<String>) -> (r: bool)
    ensures
        r == (crate::metadata::opt_string_view(*a) == crate::metadata::opt_string_view(*b)),
{
    match (a, b) {
        (None, None) => true,
        (Some(x), Some(y)) => vec_eq(&chars_of(x.as_str()), &chars_of(y.as_str())),
        _ => false,
    }
}

} // verus!
