use sitewinder::directives::SourceFile;
use sitewinder::links::rewrite_local_links;
use sitewinder::metadata::{date_string, parse_header, Date, MetadataError};
use sitewinder::order::stable_order;
use sitewinder::page::{Page, TemplateSource};
use sitewinder::site::{SiteError, SiteGen};
use sitewinder::tags::{link_size_text, tag_page_text, TagIndex};

fn page(root: &str, path: &str, text: &str) -> Page {
    let mut p = Page::new(root, path, &TemplateSource::Memory(text.to_string()), "2025");
    p.process_metadata().unwrap();
    p
}

#[test]
fn local_href_is_made_relative_to_the_document() {
    let out = rewrite_local_links("<a href=\"/about.html\">About</a>", "/R/blog/post.html", "/R");
    assert_eq!(out, "<a href=\"../about.html\">About</a>");
}

#[test]
fn remote_urls_are_kept() {
    let html = "<a href=\"https://example.com\">x</a><a href=\"mailto:a@b.com\">m</a><a href=\"#section\">s</a><img src=\"//cdn.example.com/i.png\">";
    assert_eq!(rewrite_local_links(html, "/R/blog/post.html", "/R"), html);
}

#[test]
fn src_data_poster_action_are_rewritten() {
    let html = "<img alt=\"x\" src=\"/img/a.png\"><object data=\"/o.svg\"></object><video poster=\"/p.jpg\"></video><form action=\"/send\"></form>";
    let out = rewrite_local_links(html, "/R/index.html", "/R");
    assert_eq!(out, "<img alt=\"x\" src=\"img/a.png\"><object data=\"o.svg\"></object><video poster=\"p.jpg\"></video><form action=\"send\"></form>");
}

#[test]
fn srcset_candidates_are_rewritten_one_by_one() {
    let html = "<img srcset=\"/a.png 1x, /b.png 2x\">";
    let out = rewrite_local_links(html, "/R/blog/post.html", "/R");
    assert_eq!(out, "<img srcset=\"../a.png 1x, ../b.png 2x\">");
}

#[test]
fn srcset_separators_are_kept() {
    let html = "<img srcset=\"/a.png 1x,/b.png  2x\">";
    let out = rewrite_local_links(html, "/R/blog/post.html", "/R");
    assert_eq!(out, "<img srcset=\"../a.png 1x,../b.png  2x\">");
}

#[test]
fn remote_srcset_candidates_are_kept() {
    let html = "<img srcset=\"https://a.png 1x, https://b.png 2x\"><source srcset=\"https://c.png 1x,/d.png 2x\">";
    let out = rewrite_local_links(html, "/R/index.html", "/R");
    assert_eq!(out, "<img srcset=\"https://a.png 1x, https://b.png 2x\"><source srcset=\"https://c.png 1x,d.png 2x\">");
}

#[test]
fn rewriting_twice_keeps_relative_links() {
    let once = rewrite_local_links("<a href=\"/about.html\">a</a>", "/R/blog/post.html", "/R");
    assert_eq!(rewrite_local_links(&once, "/R/blog/post.html", "/R"), once);
}

#[test]
fn path_segments_are_percent_encoded() {
    let out = rewrite_local_links("<a href=\"/tags/dim sum.html\">t</a>", "/R/index.html", "/R");
    assert_eq!(out, "<a href=\"tags/dim%20sum.html\">t</a>");
}

#[test]
fn non_ascii_segments_are_percent_encoded() {
    let out = rewrite_local_links("<a href=\"/tags/smørrebrød.html\">t</a>", "/R/index.html", "/R");
    assert_eq!(out, "<a href=\"tags/sm%C3%B8rrebr%C3%B8d.html\">t</a>");
}

#[test]
fn tags_other_than_the_listed_ones_are_left_alone() {
    let html = "<abbr href=\"/x.html\">x</abbr>";
    assert_eq!(rewrite_local_links(html, "/R/index.html", "/R"), html);
}

#[test]
fn header_is_read_and_body_kept() {
    let text = "---\ntitle: Hello: World\ngroup: posts\ntags: a, b ,c\ndate: 2024-02-29\nauthor:  Ann \n---\n\n<p>{ title }</p>\nrest\n";
    let (m, body) = parse_header(text, "/p.html").unwrap_or_else(|_| panic!("header"));
    assert_eq!(m.title, "Hello: World");
    assert_eq!(m.group, Some("posts".to_string()));
    assert_eq!(m.tags, Some(vec!["a".to_string(), "b".to_string(), "c".to_string()]));
    assert_eq!(m.date, Some(Date { year: 2024, month: 2, day: 29 }));
    assert_eq!(m.author, "Ann");
    assert_eq!(m.path, "/p.html");
    assert_eq!(body, "<p>{ title }</p>\nrest\n");
}

#[test]
fn unknown_keys_and_lines_without_colon_are_ignored() {
    let text = "--\ncolour: blue\nno colon here\ntitle: T\n--\nbody";
    let (m, body) = parse_header(text, "/p.html").unwrap_or_else(|_| panic!("header"));
    assert_eq!(m.title, "T");
    assert_eq!(m.group, None);
    assert_eq!(body, "body");
}

#[test]
fn text_without_header_is_all_body() {
    let (m, body) = parse_header("\n<h1>x</h1>\n", "/p.html").unwrap_or_else(|_| panic!("header"));
    assert_eq!(m.title, "");
    assert_eq!(body, "<h1>x</h1>\n");
}

#[test]
fn bad_date_is_an_error() {
    match parse_header("---\ndate: 2024-02-30\n---\nx", "/p.html") {
        Err(MetadataError::InvalidDate(v)) => assert_eq!(v, "2024-02-30"),
        _ => panic!("expected an invalid date"),
    }
}

#[test]
fn dates_are_written_with_four_digit_years() {
    assert_eq!(date_string(Date { year: 2024, month: 1, day: 5 }), "2024-01-05");
}

#[test]
fn short_and_long_years_are_written_as_chrono_does() {
    assert_eq!(date_string(Date { year: 5, month: 3, day: 9 }), "0005-03-09");
    assert_eq!(date_string(Date { year: 12345, month: 12, day: 31 }), "+12345-12-31");
}

#[test]
fn tag_page_titles_are_taken_literally() {
    let pages = vec![("/a.html".to_string(), "Price $1".to_string())];
    let out = tag_page_text("{ pages '<i>{ page.title }</i>' }", "x", &pages);
    assert_eq!(out, "<i>Price $1</i>");
}

#[test]
fn single_page_without_date_renders_title_and_empty_date() {
    let mut p = page("/R", "/R/index.sgpage", "---\ntitle: Hello\n---\n{ title }\n{ date }");
    assert_eq!(p.output_path, "/R/index.html");
    assert_eq!(p.metadata.path, "/index.html");
    p.generate(None, None, &TagIndex::new(), &Vec::new()).unwrap();
    assert_eq!(p.contents, "Hello\n");
}

#[test]
fn values_and_missing_neighbours_are_filled_in() {
    let mut p = page(
        "/R",
        "/R/a.sgpage",
        "---\ntitle: T\nauthor: Ann\ndate: 2024-03-01\n---\n{title}|{ author }|{ date }|{ current_year }|{ prev.title }|{ prev.path }|{ next.path }",
    );
    p.generate(None, None, &TagIndex::new(), &Vec::new()).unwrap();
    assert_eq!(p.contents, "T|Ann|2024-03-01|2025||#|#");
}

#[test]
fn group_directive_includes_file_only_in_a_group() {
    let files = vec![SourceFile { path: "nav.html".to_string(), text: "<nav>N</nav>".to_string() }];
    let mut grouped = page("/R", "/R/a.sgpage", "---\ngroup: g\n---\n{ group \"/nav.html\" }x");
    grouped.generate(None, None, &TagIndex::new(), &files).unwrap();
    assert_eq!(grouped.contents, "<nav>N</nav>x");
    let mut alone = page("/R", "/R/b.sgpage", "---\ntitle: b\n---\n{ group \"/nav.html\" }x");
    alone.generate(None, None, &TagIndex::new(), &files).unwrap();
    assert_eq!(alone.contents, "x");
}

#[test]
fn missing_group_file_is_an_error() {
    let mut p = page("/R", "/R/a.sgpage", "---\ngroup: g\n---\n{ group \"nav.html\" }x");
    assert_eq!(p.generate(None, None, &TagIndex::new(), &Vec::new()), Err("nav.html".to_string()));
    assert_eq!(p.contents, "{ group \"nav.html\" }x");
}

#[test]
fn includes_expand_until_fixpoint() {
    let files = vec![
        SourceFile { path: "a.html".to_string(), text: "[{ include \"b.html\" }]".to_string() },
        SourceFile { path: "b.html".to_string(), text: "B".to_string() },
    ];
    let mut p = page("/R", "/R/x.sgpage", "{ include \"/a.html\" }-{include \"b.html\"}");
    assert_eq!(p.include_pass(&files), Ok(true));
    assert_eq!(p.contents, "[{ include \"b.html\" }]-B");
    assert_eq!(p.include_pass(&files), Ok(true));
    assert_eq!(p.contents, "[B]-B");
    assert_eq!(p.include_pass(&files), Ok(false));
    assert_eq!(p.contents, "[B]-B");
}

#[test]
fn missing_include_is_an_error() {
    let mut p = page("/R", "/R/x.sgpage", "{ include \"none.html\" }");
    assert_eq!(p.include_pass(&Vec::new()), Err("none.html".to_string()));
}

#[test]
fn stable_order_sorts_by_date_and_keeps_ties() {
    let d = |y: i32, m: u32| Some(Date { year: y, month: m, day: 1 });
    let dates = vec![d(2024, 3), None, d(2024, 1), d(2024, 3), d(2023, 12)];
    assert_eq!(stable_order(&dates, false), vec![1, 4, 2, 0, 3]);
    assert_eq!(stable_order(&dates, true), vec![0, 3, 2, 4, 1]);
}

#[test]
fn link_size_is_capped() {
    assert_eq!(link_size_text(0), vec!['1', '1']);
    assert_eq!(link_size_text(3), vec!['1', '4']);
    assert_eq!(link_size_text(7), vec!['1', '8']);
    assert_eq!(link_size_text(20), vec!['1', '8']);
}

fn three_posts() -> SiteGen {
    let mut site = SiteGen::new("/R", "2025");
    let body = "---\ngroup: posts\ntitle: {}\ndate: {}\n---\n{ prev.title }|{ next.title }|{ prev.path }|{ next.path }";
    for (name, title, date) in [("c", "Third", "2024-03-01"), ("a", "First", "2024-01-01"), ("b", "Second", "2024-02-01")] {
        let text = body.replacen("{}", title, 1).replacen("{}", date, 1);
        site.add_page(page("/R", &format!("/R/posts/{}.sgpage", name), &text));
    }
    site
}

#[test]
fn group_pages_link_to_neighbours_by_date() {
    let mut site = three_posts();
    site.generate_pages(&Vec::new()).unwrap_or_else(|_| panic!("render"));
    assert_eq!(site.groups.len(), 1);
    let pages = &site.groups[0].pages;
    let by_title = |t: &str| pages.iter().find(|p| p.metadata.title == t).unwrap().contents.clone();
    assert_eq!(by_title("Second"), "First|Third|a.html|c.html");
    assert_eq!(by_title("First"), "|Second|#|b.html");
    assert_eq!(by_title("Third"), "Second||b.html|#");
}

#[test]
fn tag_page_lists_pages_newest_first() {
    let pages = vec![("/a.html".to_string(), "A".to_string()), ("/b.html".to_string(), "B".to_string())];
    let out = tag_page_text("<h1>{ title }</h1>{ pages '<a href=\"{ page.link }\">{ page.title }</a>' }", "x", &pages);
    assert_eq!(out, "<h1>x</h1><a href=\"/a.html\">A</a><a href=\"/b.html\">B</a>");
}

#[test]
fn tag_pages_and_cloud_are_made() {
    let mut site = SiteGen::new("/R", "2025");
    site.add_page(page("/R", "/R/b.sgpage", "---\ntitle: B\ntags: Food\ndate: 2024-01-01\n---\nb"));
    site.add_page(page("/R", "/R/a.sgpage", "---\ntitle: A\ntags: Food, art\ndate: 2024-05-01\n---\n{ tags '<a href=\"{ tag.page.link }\" size=\"{ tag.page.link_size }\">{ tag.page.title }</a>' }"));
    site.set_tag_template("/R/tags/tag.sgtag", "{ pages '<a href=\"{ page.link }\">{ page.title }</a>' }");
    site.set_tag_template("/R/other.sgtag", "ignored");
    assert!(site.process_tags().is_ok());
    assert_eq!(site.tags.entries.len(), 2);
    assert_eq!(site.tags.entries[0].name, "Food");
    assert_eq!(site.tags.entries[0].page.path, "/tags/food.html");
    let food_titles: Vec<&str> = site.tags.entries[0].page.meta.iter().map(|m| m.title.as_str()).collect();
    assert_eq!(food_titles, vec!["A", "B"]);
    assert_eq!(site.tags.entries[1].name, "art");
    assert!(site.generate_pages(&Vec::new()).is_ok());
    let all: Vec<&Page> = site.groups.iter().flat_map(|g| g.pages.iter()).collect();
    let a = all.iter().find(|p| p.metadata.title == "A").unwrap();
    assert_eq!(a.contents, "<a href=\"tags/food.html\" size=\"13\">Food</a><a href=\"tags/art.html\" size=\"12\">art</a>");
    let food = all.iter().find(|p| p.output_path == "/R/tags/food.html").unwrap();
    assert_eq!(food.contents, "<a href=\"../a.html\">A</a><a href=\"../b.html\">B</a>");
}

#[test]
fn tag_page_outside_root_is_an_error() {
    let mut site = SiteGen::new("/R", "2025");
    site.add_page(page("/R", "/R/b.sgpage", "---\ntags: t\n---\nb"));
    site.set_tag_template("/elsewhere/tag.sgtag", "x");
    match site.process_tags() {
        Err(SiteError::OutsideRoot(p)) => assert_eq!(p, "/elsewhere/t.sgpage"),
        _ => panic!("expected an error"),
    }
}
