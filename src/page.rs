//! A page: one template rendered into one HTML document.
use vstd::prelude::*;
use crate::text::{append, append_range, chars_of, replace_all_spec, replace_all_token, replace_first_spec, replace_first_token, string_of};
use crate::directives::{blocks_from, expand_directives, expand_from, files_view, replace_blocks, vec_eq, SourceFile};
use crate::links::{last_index, make_relative_link, relative_link, rewrite_links_spec, rewrite_local_links, starts_with};
use crate::metadata::{date_string, date_text, parse_header, parse_header_spec, Date, Metadata, MetadataError};
use crate::tags::{link_size, link_size_text, two_digits, TagIndex};

verus! {

/// Where a page's template text comes from: a file on disk (with the text read
/// from it), or text made in memory (a tag page).
pub enum TemplateSource {
    File(String),
    Memory(String),
}

impl TemplateSource {
    pub open spec fn text(&self) -> Seq<char> {
        match self {
            TemplateSource::File(s) => s@,
            TemplateSource::Memory(s) => s@,
        }
    }
}

// ----- output paths -----

/// Where the file name of `p` starts.
pub open spec fn file_name_start(p: Seq<char>) -> int {
    match last_index(p, p.len() as int, '/') {
        Some(k) => k + 1,
        None => 0,
    }
}

/// `p` with the extension of its file name replaced by `.html` (or `.html` added).
pub open spec fn html_path(p: Seq<char>) -> Seq<char> {
    let st = file_name_start(p);
    let name = p.subrange(st, p.len() as int);
    match last_index(name, name.len() as int, '.') {
        Some(k) => if k > 0 {
            p.subrange(0, st + k) + ".html"@
        } else {
            p + ".html"@
        },
        None => p + ".html"@,
    }
}

/// The part of `out` below `root`.
pub open spec fn below_root(root: Seq<char>, out: Seq<char>) -> Seq<char> {
    out.subrange(root.len() as int, out.len() as int)
}

/// `out` lies in the directory `root`.
pub open spec fn under_root(root: Seq<char>, out: Seq<char>) -> bool {
    let rest = below_root(root, out);
    &&& starts_with(out, root)
    &&& (root.len() > 0 && root[root.len() - 1] == '/') || rest.len() == 0 || rest[0] == '/'
}

/// The path of `out` from the site root, starting with `/`.
pub open spec fn site_path(root: Seq<char>, out: Seq<char>) -> Seq<char> {
    let rest = below_root(root, out);
    if rest.len() > 0 && rest[0] == '/' {
        rest
    } else {
        seq!['/'] + rest
    }
}

/// A template path with a file name (not a directory path).
pub open spec fn names_file(p: Seq<char>) -> bool {
    p.len() > 0 && p[p.len() - 1] != '/'
}

pub fn file_name_start_exec(p: &Vec<char>) -> (r: usize)
    ensures
        r == file_name_start(p@),
        r <= p@.len(),
{
    let mut k: usize = p.len();
    while k > 0 && p[k - 1] != '/'
        invariant
            k <= p@.len(),
            last_index(p@, k as int, '/') == last_index(p@, p@.len() as int, '/'),
        decreases k,
    {
        k -= 1;
    }
    k
}

pub fn html_path_exec(p: &Vec<char>) -> (r: Vec<char>)
    ensures
        r@ == html_path(p@),
{
    let st = file_name_start_exec(p);
    let mut name: Vec<char> = Vec::new();
    append_range(&mut name, p, st, p.len());
    let mut k: usize = name.len();
    while k > 0 && name[k - 1] != '.'
        invariant
            k <= name@.len(),
            last_index(name@, k as int, '.') == last_index(name@, name@.len() as int, '.'),
        decreases k,
    {
        k -= 1;
    }
    let mut r: Vec<char> = Vec::new();
    if k > 1 {
        append_range(&mut r, p, 0, st + k - 1);
    } else {
        append(&mut r, p);
    }
    append(&mut r, &chars_of(".html"));
    r
}

fn site_path_exec(root: &Vec<char>, out: &Vec<char>) -> (r: Vec<char>)
    requires
        root@.len() <= out@.len(),
    ensures
        r@ == site_path(root@, out@),
{
    let mut rest: Vec<char> = Vec::new();
    append_range(&mut rest, out, root.len(), out.len());
    if rest.len() > 0 && rest[0] == '/' {
        rest
    } else {
        let mut r: Vec<char> = Vec::new();
        r.push('/');
        append(&mut r, &rest);
        r
    }
}

// ----- rendering -----

/// What `{ date }` becomes.
pub open spec fn date_field(d: Option<Date>) -> Seq<char> {
    match d {
        Some(x) => date_text(x.year as int, x.month as int, x.day as int),
        None => seq![],
    }
}

/// What the placeholders see of a neighbour: its title and its path.
pub open spec fn neighbor_view(m: Option<Metadata>) -> Option<(Seq<char>, Seq<char>)> {
    match m {
        Some(x) => Some((x.title@, x.path@)),
        None => None,
    }
}

/// What `{ prev.title }` / `{ next.title }` become.
pub open spec fn neighbor_title(m: Option<(Seq<char>, Seq<char>)>) -> Seq<char> {
    match m {
        Some(x) => x.0,
        None => seq![],
    }
}

/// What `{ prev.path }` / `{ next.path }` become: a link, or `#` without a neighbour.
pub open spec fn neighbor_link(m: Option<(Seq<char>, Seq<char>)>, doc: Seq<char>, root: Seq<char>) -> Seq<char> {
    match m {
        Some(x) => relative_link(x.1, doc, root),
        None => seq!['#'],
    }
}

/// The tag cloud filled in: for each tag in turn, the first remaining
/// `{ tag.page.link }`, `{ tag.page.link_size }` and `{ tag.page.title }`.
pub open spec fn cloud(
    c: Seq<char>,
    tags: Seq<(Seq<char>, Seq<char>, nat)>,
    doc: Seq<char>,
    root: Seq<char>,
) -> Seq<char>
    decreases tags.len(),
{
    if tags.len() == 0 {
        c
    } else {
        let t = tags.last();
        let c0 = cloud(c, tags.drop_last(), doc, root);
        let c1 = replace_first_spec(c0, "tag.page.link"@, relative_link(t.1, doc, root));
        let c2 = replace_first_spec(c1, "tag.page.link_size"@, two_digits(link_size(t.2)));
        replace_first_spec(c2, "tag.page.title"@, t.0)
    }
}

/// The text after the value placeholders: title, date, author, current year.
pub open spec fn values_filled(c: Seq<char>, m: Metadata, year: Seq<char>) -> Seq<char> {
    let c1 = replace_all_spec(c, "title"@, m.title@);
    let c2 = replace_all_spec(c1, "date"@, date_field(m.date));
    let c3 = replace_all_spec(c2, "author"@, m.author@);
    replace_all_spec(c3, "current_year"@, year)
}

/// The text after the neighbour placeholders.
pub open spec fn neighbors_filled(
    c: Seq<char>,
    prev: Option<(Seq<char>, Seq<char>)>,
    next: Option<(Seq<char>, Seq<char>)>,
    doc: Seq<char>,
    root: Seq<char>,
) -> Seq<char> {
    let c1 = replace_all_spec(c, "prev.title"@, neighbor_title(prev));
    let c2 = replace_all_spec(c1, "prev.path"@, neighbor_link(prev, doc, root));
    let c3 = replace_all_spec(c2, "next.title"@, neighbor_title(next));
    replace_all_spec(c3, "next.path"@, neighbor_link(next, doc, root))
}

/// The rendered document, or the first file that a `{ group "..." }` names and
/// that is missing.
pub open spec fn render(
    c: Seq<char>,
    m: Metadata,
    year: Seq<char>,
    prev: Option<(Seq<char>, Seq<char>)>,
    next: Option<(Seq<char>, Seq<char>)>,
    tags: Seq<(Seq<char>, Seq<char>, nat)>,
    files: Seq<(Seq<char>, Seq<char>)>,
    doc: Seq<char>,
    root: Seq<char>,
) -> Result<Seq<char>, Seq<char>> {
    let c4 = values_filled(c, m, year);
    match expand_from(c4, 0, "group"@, files, m.group is Some) {
        Ok(c5) => {
            let c9 = neighbors_filled(c5, prev, next, doc, root);
            let c10 = blocks_from(c9, 0, "tags"@, tags.len(), None);
            Ok(rewrite_links_spec(cloud(c10, tags, doc, root), doc, root))
        },
        Err(e) => Err(e),
    }
}

/// The first file that the page's `{ group "..." }` directives name and that is
/// missing, when the page is in a group: the one way rendering can fail.
pub open spec fn missing_group_file(
    c: Seq<char>,
    m: Metadata,
    year: Seq<char>,
    files: Seq<(Seq<char>, Seq<char>)>,
) -> Option<Seq<char>> {
    match expand_from(values_filled(c, m, year), 0, "group"@, files, m.group is Some) {
        Ok(_) => None,
        Err(e) => Some(e),
    }
}

/// A further `{ include }` pass would change nothing in `c`.
pub open spec fn includes_done(c: Seq<char>, files: Seq<(Seq<char>, Seq<char>)>) -> bool {
    expand_from(c, 0, "include"@, files, true) == Ok::<Seq<char>, Seq<char>>(c)
}

/// A page being rendered.
pub struct Page {
    /// The site root.
    pub root_path: String,
    /// The HTML file that the page becomes.
    pub output_path: String,
    /// The year that `{ current_year }` becomes.
    pub current_year: String,
    pub metadata: Metadata,
    /// The template text, rendered in place.
    pub contents: String,
}

impl Page {
    pub open spec fn wf(&self) -> bool {
        self.metadata.wf()
    }

    /// The page of the template at `template_path` under the site root `root_path`.
    pub fn new(root_path: &str, template_path: &str, template_source: &TemplateSource, current_year: &str) -> (r: Page)
        requires
            names_file(template_path@),
            under_root(root_path@, html_path(template_path@)),
        ensures
            r.wf(),
            r.root_path@ == root_path@,
            r.output_path@ == html_path(template_path@),
            r.current_year@ == current_year@,
            r.metadata.header() == crate::metadata::empty_header(),
            r.metadata.path@ == site_path(root_path@, html_path(template_path@)),
            r.contents@ == template_source.text(),
    {
        let root = chars_of(root_path);
        let out = html_path_exec(&chars_of(template_path));
        let path = site_path_exec(&root, &out);
        let contents = match template_source {
            TemplateSource::File(s) => s.clone(),
            TemplateSource::Memory(s) => s.clone(),
        };
        Page {
            root_path: root_path.to_string(),
            output_path: string_of(&out),
            current_year: current_year.to_string(),
            metadata: Metadata::new(string_of(&path).as_str()),
            contents,
        }
    }

    /// Reads the header block: fills in the metadata and keeps the body. A date
    /// that does not parse is an error, and then the page is left as it was.
    pub fn process_metadata(&mut self) -> (r: Result<(), MetadataError>)
        requires
            old(self).wf(),
        ensures
            final(self).wf(),
            final(self).root_path == old(self).root_path,
            final(self).output_path == old(self).output_path,
            final(self).current_year == old(self).current_year,
            final(self).metadata.path == old(self).metadata.path,
            match parse_header_spec(old(self).contents@) {
                Ok((h, b)) => r is Ok && final(self).metadata.header() == h && final(self).contents@ == b,
                Err(e) => r matches Err(MetadataError::InvalidDate(x)) && x@ == e
                    && final(self).metadata == old(self).metadata && final(self).contents == old(self).contents,
            },
    {
        match parse_header(self.contents.as_str(), self.metadata.path.as_str()) {
            Ok((m, body)) => {
                let path = self.metadata.path.clone();
                self.metadata = Metadata { path, ..m };
                self.contents = body;
                Ok(())
            },
            Err(e) => Err(e),
        }
    }

    /// A copy of the page's metadata.
    pub fn get_metadata(&self) -> (r: Metadata)
        ensures
            r.header() == self.metadata.header(),
            r.path@ == self.metadata.path@,
            r.date == self.metadata.date,
            r.wf() == self.metadata.wf(),
    {
        self.metadata.snapshot()
    }

    /// One pass over `{ include "path" }` directives: each becomes the text of the
    /// file it names. Returns whether the text changed, or the first missing file
    /// (and then the page is left as it was).
    pub fn include_pass(&mut self, files: &Vec<SourceFile>) -> (r: Result<bool, String>)
        ensures
            final(self).root_path == old(self).root_path,
            final(self).output_path == old(self).output_path,
            final(self).current_year == old(self).current_year,
            final(self).metadata == old(self).metadata,
            match expand_from(old(self).contents@, 0, "include"@, files_view(files@), true) {
                Ok(t) => r == Ok::<bool, String>(t != old(self).contents@) && final(self).contents@ == t,
                Err(k) => r matches Err(x) && x@ == k && final(self).contents == old(self).contents,
            },
    {
        let c = chars_of(self.contents.as_str());
        match expand_directives(&c, &chars_of("include"), files, true) {
            Ok(t) => {
                let changed = !vec_eq(&t, &c);
                self.contents = string_of(&t);
                Ok(changed)
            },
            Err(k) => Err(string_of(&k)),
        }
    }

    /// Renders the page: fills in the placeholders (`prev` and `next` are its
    /// neighbours in its group) and makes every local link relative to the page.
    /// `{ include }` expansion must have reached its fixpoint beforehand (by
    /// repeated `include_pass`): rendering expands no include directive.
    /// A file named by `{ group "..." }` that is missing is an error, and then the
    /// page is left as it was.
    pub fn generate(&mut self, prev: Option<Metadata>, next: Option<Metadata>, tags: &TagIndex, files: &Vec<SourceFile>) -> (r: Result<(), String>)
        requires
            old(self).wf(),
            includes_done(old(self).contents@, files_view(files@)),
        ensures
            final(self).wf(),
            final(self).root_path == old(self).root_path,
            final(self).output_path == old(self).output_path,
            final(self).current_year == old(self).current_year,
            final(self).metadata == old(self).metadata,
            match render(
                old(self).contents@,
                old(self).metadata,
                old(self).current_year@,
                neighbor_view(prev),
                neighbor_view(next),
                tags@,
                files_view(files@),
                old(self).output_path@,
                old(self).root_path@,
            ) {
                Ok(t) => r is Ok && final(self).contents@ == t,
                Err(k) => r matches Err(x) && x@ == k && final(self).contents == old(self).contents,
            },
    {
        let doc = chars_of(self.output_path.as_str());
        let root = chars_of(self.root_path.as_str());
        let c0 = chars_of(self.contents.as_str());
        let c1 = replace_all_token(&c0, &chars_of("title"), &chars_of(self.metadata.title.as_str()));
        let date_s = match self.metadata.date {
            Some(d) => chars_of(date_string(d).as_str()),
            None => Vec::new(),
        };
        let c2 = replace_all_token(&c1, &chars_of("date"), &date_s);
        let c3 = replace_all_token(&c2, &chars_of("author"), &chars_of(self.metadata.author.as_str()));
        let c4 = replace_all_token(&c3, &chars_of("current_year"), &chars_of(self.current_year.as_str()));
        let c5 = match expand_directives(&c4, &chars_of("group"), files, self.metadata.group.is_some()) {
            Ok(t) => t,
            Err(k) => {
                return Err(string_of(&k));
            },
        };
        let (prev_title, prev_path) = neighbor_fields(&prev, &doc, &root);
        let c6 = replace_all_token(&c5, &chars_of("prev.title"), &prev_title);
        let c7 = replace_all_token(&c6, &chars_of("prev.path"), &prev_path);
        let (next_title, next_path) = neighbor_fields(&next, &doc, &root);
        let c8 = replace_all_token(&c7, &chars_of("next.title"), &next_title);
        let c9 = replace_all_token(&c8, &chars_of("next.path"), &next_path);
        let c10 = replace_blocks(&c9, &chars_of("tags"), tags.len(), &None);
        let c11 = fill_cloud(&c10, tags, &doc, &root);
        let out = rewrite_local_links(string_of(&c11).as_str(), self.output_path.as_str(), self.root_path.as_str());
        self.contents = out;
        Ok(())
    }
}

/// The title and link that a neighbour's placeholders become.
fn neighbor_fields(m: &Option<Metadata>, doc: &Vec<char>, root: &Vec<char>) -> (r: (Vec<char>, Vec<char>))
    ensures
        r.0@ == neighbor_title(neighbor_view(*m)),
        r.1@ == neighbor_link(neighbor_view(*m), doc@, root@),
{
    match m {
        Some(x) => (chars_of(x.title.as_str()), make_relative_link(&chars_of(x.path.as_str()), doc, root)),
        None => {
            let mut hash: Vec<char> = Vec::new();
            hash.push('#');
            (Vec::new(), hash)
        },
    }
}

/// Fills in the tag cloud, one tag after the other in name order.
fn fill_cloud(c: &Vec<char>, tags: &TagIndex, doc: &Vec<char>, root: &Vec<char>) -> (r: Vec<char>)
    ensures
        r@ == cloud(c@, tags@, doc@, root@),
{
    let mut out = c.clone();
    let mut k: usize = 0;
    while k < tags.entries.len()
        invariant
            k <= tags@.len(),
            tags@.len() == tags.entries@.len(),
            out@ == cloud(c@, tags@.subrange(0, k as int), doc@, root@),
        decreases tags@.len() - k,
    {
        let e = &tags.entries[k];
        let link = make_relative_link(&chars_of(e.page.path.as_str()), doc, root);
        let o1 = replace_first_token(&out, &chars_of("tag.page.link"), &link);
        let size = link_size_text(e.page.meta.len());
        let o2 = replace_first_token(&o1, &chars_of("tag.page.link_size"), &size);
        out = replace_first_token(&o2, &chars_of("tag.page.title"), &chars_of(e.name.as_str()));
        assert(tags@.subrange(0, k + 1).drop_last() =~= tags@.subrange(0, k as int));
        k += 1;
    }
    assert(tags@.subrange(0, tags@.len() as int) =~= tags@);
    out
}

} // verus!
