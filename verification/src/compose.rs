//! Page composition: assembles the page title, sidebar HTML, body HTML and
//! active-path marker for the layout renderer.
//!
//! The caller resolves the request (`route::resolve`), reads the document,
//! and hands the text in; a missing document yields the not-found page,
//! with the literal `404 Not Found` body and no sidebar. For the root
//! document a "Recently Added" table of the ten most recently modified
//! documents is appended to the body.

use vstd::prelude::*;
use crate::fstree::FsEntry;
use crate::fstree::NavEntry;
use crate::fstree::NavNode;
use crate::fstree::nav_view;
use crate::fstree::navs_view;
use crate::fstree::lemma_navs_view;
use crate::fstree::spec_scan;
use crate::fstree::scan;
use crate::recent::RecentItem;
use crate::recent::RecentRec;
use crate::recent::rec_view;
use crate::recent::recs_view;
use crate::recent::spec_recent;
use crate::recent::recent;
use crate::render::md_html_of;
use crate::render::markdown_to_html;
use crate::figures::spec_caption;
use crate::figures::caption_images;
use crate::math::spec_typeset;
use crate::math::typeset_math;
use crate::route::path_of;
use crate::route::is_root_request;
use crate::route::segs_view;
use crate::title::spec_format_title;
use crate::title::format_title;
use crate::text::to_chars;
use crate::text::chars_to_string;
use crate::text::push_chars;
use crate::text::push_str_chars;
use crate::text::chars_eq_str;
use crate::text::str_eq;

verus! {

/// The composed page handed to the layout renderer.
pub struct RenderedPage {
    pub page_title: String,
    pub sidebar_html: String,
    pub body_html: String,
    pub active_path: String,
}

/// One sidebar node: a link, marked active when its URL equals `active`,
/// with a nested list for its children.
pub open spec fn spec_sidebar_item(n: NavNode, active: Seq<char>) -> Seq<char>
    decreases n, 0int,
{
    "<li><a href=\""@ + n.url_path + "\""@ + (if n.url_path == active {
        " class=\"active\""@
    } else {
        Seq::empty()
    }) + ">"@ + n.title + "</a>"@ + (if n.children.len() > 0 {
        "<ul>"@ + spec_sidebar_items(n.children, 0, active) + "</ul>"@
    } else {
        Seq::empty()
    }) + "</li>"@
}

/// The sidebar nodes from `i` on, in order.
pub open spec fn spec_sidebar_items(nodes: Seq<NavNode>, i: int, active: Seq<char>) -> Seq<char>
    decreases nodes, nodes.len() - i,
{
    if i < 0 || i >= nodes.len() {
        Seq::empty()
    } else {
        spec_sidebar_item(nodes[i], active) + spec_sidebar_items(nodes, i + 1, active)
    }
}

/// The whole sidebar list.
pub open spec fn spec_sidebar(nodes: Seq<NavNode>, active: Seq<char>) -> Seq<char> {
    "<ul class=\"sidebar-nav\">"@ + spec_sidebar_items(nodes, 0, active) + "</ul>"@
}

/// One row of the recently-added table.
pub open spec fn spec_recent_row(it: RecentRec) -> Seq<char> {
    "<tr><td><a href=\""@ + it.url_path + "\">"@ + it.title + "</a></td><td>"@ + it.category
        + "</td><td>"@ + it.date + "</td></tr>\n"@
}

pub open spec fn spec_recent_rows(items: Seq<RecentRec>, i: int) -> Seq<char>
    decreases items.len() - i,
{
    if i < 0 || i >= items.len() {
        Seq::empty()
    } else {
        spec_recent_row(items[i]) + spec_recent_rows(items, i + 1)
    }
}

/// The recently-added table.
pub open spec fn spec_recent_table(items: Seq<RecentRec>) -> Seq<char> {
    "<h2>Recently Added</h2>\n<table>\n<thead>\n<tr><th>Page</th><th>Category</th><th>Date Added</th></tr>\n</thead>\n<tbody>\n"@
        + spec_recent_rows(items, 0) + "</tbody>\n</table>"@
}

/// The request's active path: `/`-joined segments, `/index` for the root.
pub open spec fn spec_active_path(segs: Seq<Seq<char>>) -> Seq<char> {
    if segs.len() == 0 {
        "/index"@
    } else {
        path_of(segs, 0)
    }
}

/// The page's title: the site title for the root document, the formatted
/// last segment otherwise.
pub open spec fn spec_page_title(segs: Seq<Seq<char>>, site_title: Seq<char>) -> Seq<char> {
    if is_root_request(segs) {
        site_title
    } else {
        spec_format_title(segs.last())
    }
}

/// The page body for document text `doc`: the rendered HTML with math
/// spans typeset and images captioned, and the recently-added table
/// appended on the root page.
pub open spec fn spec_body(
    doc: Seq<char>,
    root_page: bool,
    root: Seq<FsEntry>,
    prefix: Seq<char>,
) -> Seq<char> {
    let html = spec_caption(spec_typeset(md_html_of(doc)));
    if root_page {
        html + "\n"@ + spec_recent_table(spec_recent(root, prefix, 10))
    } else {
        html
    }
}

/// Appends the sidebar items for `nodes` to `out`.
fn push_sidebar_items(nodes: &Vec<NavEntry>, active: &Vec<char>, out: &mut Vec<char>)
    ensures
        final(out)@ == old(out)@ + spec_sidebar_items(navs_view(nodes@), 0, active@),
    decreases nodes@,
{
    let n = nodes.len();
    let ghost gnodes = navs_view(nodes@);
    proof {
        lemma_navs_view(nodes@);
        assert(out@ + spec_sidebar_items(gnodes, 0, active@) =~= old(out)@ + spec_sidebar_items(
            gnodes,
            0,
            active@,
        ));
    }
    let mut i: usize = 0;
    while i < n
        invariant
            n == nodes@.len(),
            gnodes == navs_view(nodes@),
            gnodes.len() == n,
            forall|j: int| 0 <= j < n ==> gnodes[j] == nav_view(nodes@[j]),
            0 <= i <= n,
            out@ + spec_sidebar_items(gnodes, i as int, active@) == old(out)@ + spec_sidebar_items(
                gnodes,
                0,
                active@,
            ),
        decreases n - i,
    {
        let ghost pre = out@;
        let node = &nodes[i];
        push_str_chars(out, "<li><a href=\"");
        push_str_chars(out, node.url_path.as_str());
        push_str_chars(out, "\"");
        if chars_eq_str(active, node.url_path.as_str()) {
            push_str_chars(out, " class=\"active\"");
        }
        push_str_chars(out, ">");
        push_str_chars(out, node.title.as_str());
        push_str_chars(out, "</a>");
        if node.children.len() > 0 {
            push_str_chars(out, "<ul>");
            proof {
                assert(decreases_to!(nodes@ => nodes@[i as int]));
                assert(decreases_to!(nodes@[i as int] => nodes@[i as int].children@));
            }
            push_sidebar_items(&node.children, active, out);
            push_str_chars(out, "</ul>");
            proof {
                lemma_navs_view(nodes@[i as int].children@);
                assert(navs_view(nodes@[i as int].children@).len() > 0);
            }
        } else {
            proof {
                assert(navs_view(nodes@[i as int].children@) =~= Seq::<NavNode>::empty());
            }
        }
        push_str_chars(out, "</li>");
        proof {
            assert(out@ =~= pre + spec_sidebar_item(gnodes[i as int], active@));
            assert(pre + (spec_sidebar_item(gnodes[i as int], active@) + spec_sidebar_items(
                gnodes,
                i + 1,
                active@,
            )) =~= out@ + spec_sidebar_items(gnodes, i + 1, active@));
        }
        i += 1;
    }
    proof {
        assert(out@ + spec_sidebar_items(gnodes, n as int, active@) =~= out@);
    }
}

/// The sidebar HTML for the scanned tree, with the entry whose URL equals
/// `active` marked active.
pub fn sidebar_html(nodes: &Vec<NavEntry>, active: &Vec<char>) -> (r: String)
    ensures
        r@ == spec_sidebar(navs_view(nodes@), active@),
{
    let mut out: Vec<char> = Vec::new();
    push_str_chars(&mut out, "<ul class=\"sidebar-nav\">");
    push_sidebar_items(nodes, active, &mut out);
    push_str_chars(&mut out, "</ul>");
    proof {
        assert(out@ =~= spec_sidebar(navs_view(nodes@), active@));
    }
    chars_to_string(&out)
}

/// The recently-added table for `items`.
fn recent_table(items: &Vec<RecentItem>) -> (r: Vec<char>)
    ensures
        r@ == spec_recent_table(recs_view(items@)),
{
    let ghost gitems = recs_view(items@);
    let n = items.len();
    let mut out: Vec<char> = Vec::new();
    push_str_chars(
        &mut out,
        "<h2>Recently Added</h2>\n<table>\n<thead>\n<tr><th>Page</th><th>Category</th><th>Date Added</th></tr>\n</thead>\n<tbody>\n",
    );
    let ghost head = out@;
    let mut i: usize = 0;
    proof {
        assert(out@ + spec_recent_rows(gitems, 0) =~= head + spec_recent_rows(gitems, 0));
    }
    while i < n
        invariant
            n == items@.len(),
            gitems == recs_view(items@),
            gitems.len() == n,
            0 <= i <= n,
            out@ + spec_recent_rows(gitems, i as int) == head + spec_recent_rows(gitems, 0),
        decreases n - i,
    {
        let ghost pre = out@;
        let it = &items[i];
        push_str_chars(&mut out, "<tr><td><a href=\"");
        push_str_chars(&mut out, it.url_path.as_str());
        push_str_chars(&mut out, "\">");
        push_str_chars(&mut out, it.title.as_str());
        push_str_chars(&mut out, "</a></td><td>");
        push_str_chars(&mut out, it.category.as_str());
        push_str_chars(&mut out, "</td><td>");
        push_str_chars(&mut out, it.date.as_str());
        push_str_chars(&mut out, "</td></tr>\n");
        proof {
            assert(gitems[i as int] == rec_view(items@[i as int]));
            assert(out@ =~= pre + spec_recent_row(gitems[i as int]));
            assert(pre + (spec_recent_row(gitems[i as int]) + spec_recent_rows(gitems, i + 1))
                =~= out@ + spec_recent_rows(gitems, i + 1));
        }
        i += 1;
    }
    proof {
        assert(out@ + spec_recent_rows(gitems, n as int) =~= out@);
    }
    push_str_chars(&mut out, "</tbody>\n</table>");
    proof {
        assert(out@ =~= spec_recent_table(gitems));
    }
    out
}

/// The active path of the request's segments.
fn active_path_chars(segments: &Vec<String>) -> (r: Vec<char>)
    ensures
        r@ == spec_active_path(segs_view(segments@)),
{
    let ghost gsegs = segs_view(segments@);
    let mut out: Vec<char> = Vec::new();
    if segments.len() == 0 {
        push_str_chars(&mut out, "/index");
        proof {
            assert(out@ =~= "/index"@);
        }
        return out;
    }
    let n = segments.len();
    let mut k: usize = 0;
    proof {
        assert(out@ + path_of(gsegs, 0) =~= path_of(gsegs, 0));
    }
    while k < n
        invariant
            n == segments@.len(),
            gsegs == segs_view(segments@),
            0 <= k <= n,
            out@ + path_of(gsegs, k as int) == path_of(gsegs, 0),
        decreases n - k,
    {
        let ghost pre = out@;
        out.push('/');
        push_str_chars(&mut out, segments[k].as_str());
        proof {
            assert(pre + (seq!['/'] + gsegs[k as int] + path_of(gsegs, k + 1)) =~= out@ + path_of(
                gsegs,
                k + 1,
            ));
        }
        k += 1;
    }
    proof {
        assert(out@ + path_of(gsegs, n as int) =~= out@);
    }
    out
}

/// Composes the page for a request. `segments` is the request path,
/// `doc` the resolved document's text (`None` when the request did not
/// resolve to a readable document), `root` the scanned content tree,
/// `prefix` the site's URL prefix, and `site_title` the title of the root
/// page. A missing document yields the not-found page: the literal
/// `404 Not Found` body, no sidebar.
pub fn compose(
    segments: &Vec<String>,
    doc: Option<&str>,
    root: &Vec<FsEntry>,
    prefix: &str,
    site_title: &str,
) -> (r: RenderedPage)
    ensures
        r.active_path@ == spec_active_path(segs_view(segments@)),
        doc is None ==> r.body_html@ == "<h1>404 Not Found</h1>"@ && r.sidebar_html@
            == Seq::<char>::empty() && r.page_title@ == "404 Not Found"@,
        doc is Some ==> r.body_html@ == spec_body(
            doc->0@,
            is_root_request(segs_view(segments@)),
            root@,
            prefix@,
        ),
        doc is Some ==> r.sidebar_html@ == spec_sidebar(
            spec_scan(root@, prefix@),
            prefix@ + spec_active_path(segs_view(segments@)),
        ),
        doc is Some ==> r.page_title@ == spec_page_title(segs_view(segments@), site_title@),
{
    let active = active_path_chars(segments);
    let active_path = chars_to_string(&active);
    match doc {
        None => {
            let mut nf: Vec<char> = Vec::new();
            push_str_chars(&mut nf, "<h1>404 Not Found</h1>");
            proof {
                assert(nf@ =~= "<h1>404 Not Found</h1>"@);
            }
            let mut title: Vec<char> = Vec::new();
            push_str_chars(&mut title, "404 Not Found");
            proof {
                assert(title@ =~= "404 Not Found"@);
            }
            RenderedPage {
                page_title: chars_to_string(&title),
                sidebar_html: chars_to_string(&Vec::new()),
                body_html: chars_to_string(&nf),
                active_path,
            }
        },
        Some(text) => {
            let is_root = segments.len() == 0 || (segments.len() == 1 && str_eq(
                segments[0].as_str(),
                "index",
            ));
            assert(is_root == is_root_request(segs_view(segments@)));
            let rendered = markdown_to_html(text);
            let typeset = typeset_math(rendered.as_str());
            let captioned = caption_images(typeset.as_str());
            let mut body = to_chars(captioned.as_str());
            if is_root {
                let items = recent(root, prefix, 10);
                let table = recent_table(&items);
                push_str_chars(&mut body, "\n");
                push_chars(&mut body, &table);
                proof {
                    assert(body@ =~= spec_body(text@, true, root@, prefix@));
                }
            } else {
                proof {
                    assert(body@ =~= spec_body(text@, false, root@, prefix@));
                }
            }
            let tree = scan(root, prefix);
            let mut full_active: Vec<char> = Vec::new();
            push_str_chars(&mut full_active, prefix);
            push_chars(&mut full_active, &active);
            let sidebar = sidebar_html(&tree, &full_active);
            let page_title = if is_root {
                site_title.to_owned()
            } else {
                format_title(segments[segments.len() - 1].as_str())
            };
            proof {
                if !is_root_request(segs_view(segments@)) {
                    assert(segs_view(segments@).last() == segments@[segments@.len() - 1]@);
                }
            }
            RenderedPage {
                page_title,
                sidebar_html: sidebar,
                body_html: chars_to_string(&body),
                active_path,
            }
        },
    }
}

} // verus!
