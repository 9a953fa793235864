//! The font-face extractor: what a page's inline styles and link elements
//! contribute, and the bounded, cycle-safe crawl over imported stylesheets.
//! Fetching happens outside; every decision — which links count, which URLs
//! are still unvisited, how deep an import chain may go — is made here.
use vstd::prelude::*;

use crate::cssparse::{
    parse_css, spec_format_from_url, spec_import_urls, spec_last_dot_any, spec_parse_css_fonts,
    format_from_url,
};
use crate::model::{sort_fonts, spec_fonts, spec_sort_fonts, FontData, FontInfo};
use crate::resolve::{file_name_from_url, parsed_url_of, resolve_url, spec_file_name_from_url, spec_resolve};
use crate::text::{
    contains_string, spec_is_whitespace, spec_lower_seq, spec_strs, str_eq, to_lower,
    is_whitespace_char,
};

verus! {

/// Imports are followed at most this deep below the page's own stylesheets.
pub const MAX_IMPORT_DEPTH: usize = 3;

/// What the HTML parser finds as the text of each `style` element, in
/// document order, text nodes joined by newlines. Relies on `scraper`'s
/// documented parsing: the result depends on the markup alone.
pub uninterp spec fn style_blocks_of(html: Seq<char>) -> Seq<Seq<char>>;

/// Relies on `scraper::Html::parse_document`, `Selector::parse` and
/// `ElementRef::text`: the joined text of each `style` element.
#[verifier::external_body]
fn html_style_blocks(html: &str) -> (r: Vec<String>)
    ensures
        spec_strs(r@) == style_blocks_of(html@),
{
    let document = scraper::Html::parse_document(html);
    match scraper::Selector::parse("style") {
        Ok(selector) => document.select(&selector).map(
            |element| element.text().collect::<Vec<_>>().join("\n"),
        ).collect(),
        Err(_) => Vec::new(),
    }
}

/// What the HTML parser finds as each `link` element's `rel`, `href` and
/// `as` attributes, absent ones empty, in document order. Relies on
/// `scraper`'s documented parsing: the result depends on the markup alone.
pub uninterp spec fn link_elements_of(html: Seq<char>) -> Seq<(Seq<char>, Seq<char>, Seq<char>)>;

/// Relies on `scraper::Html::parse_document`, `Selector::parse` and
/// `Element::attr`: each `link` element's `rel`, `href` and `as` attributes.
#[verifier::external_body]
fn html_link_elements(html: &str) -> (r: Vec<(String, String, String)>)
    ensures
        spec_triples(r@) == link_elements_of(html@),
{
    let document = scraper::Html::parse_document(html);
    match scraper::Selector::parse("link") {
        Ok(selector) => document.select(&selector).map(
            |link| (
                link.value().attr("rel").unwrap_or_default().to_owned(),
                link.value().attr("href").unwrap_or_default().to_owned(),
                link.value().attr("as").unwrap_or_default().to_owned(),
            ),
        ).collect(),
        Err(_) => Vec::new(),
    }
}

/// The views of an attribute-triple list.
pub open spec fn spec_triples(v: Seq<(String, String, String)>) -> Seq<
    (Seq<char>, Seq<char>, Seq<char>),
> {
    v.map_values(|t: (String, String, String)| (t.0@, t.1@, t.2@))
}

/// The text of each `style` element of a page, in document order.
pub fn extract_style_blocks(html: &str) -> (r: Vec<String>)
    ensures
        spec_strs(r@) == style_blocks_of(html@),
{
    html_style_blocks(html)
}

/// Whether some whitespace-separated word of `s`, with `seg` read so far,
/// is exactly `w`.
pub open spec fn spec_word_acc(s: Seq<char>, seg: Seq<char>, w: Seq<char>) -> bool
    decreases s.len(),
{
    if s.len() == 0 {
        seg == w
    } else if spec_is_whitespace(s[0]) {
        seg == w || spec_word_acc(s.subrange(1, s.len() as int), Seq::empty(), w)
    } else {
        spec_word_acc(s.subrange(1, s.len() as int), seg.push(s[0]), w)
    }
}

/// Whether `s`, split on whitespace, has `w` as one of its words.
pub open spec fn spec_has_word(s: Seq<char>, w: Seq<char>) -> bool {
    spec_word_acc(s, Seq::empty(), w)
}

/// Whether the text, split on whitespace, holds the given word.
pub fn has_word(s: &str, w: &str) -> (r: bool)
    ensures
        r == spec_has_word(s@, w@),
{
    let n = s.unicode_len();
    let mut seg_start: usize = 0;
    let mut i: usize = 0;
    proof {
        assert(s@.subrange(0, n as int) =~= s@);
        assert(s@.subrange(0, 0) =~= Seq::<char>::empty());
    }
    while i < n
        invariant
            seg_start <= i <= n,
            n == s@.len(),
            spec_has_word(s@, w@) == spec_word_acc(
                s@.subrange(i as int, n as int),
                s@.subrange(seg_start as int, i as int),
                w@,
            ),
        decreases n - i,
    {
        let ghost suffix = s@.subrange(i as int, n as int);
        let ghost seg = s@.subrange(seg_start as int, i as int);
        let c = s.get_char(i);
        proof {
            assert(suffix[0] == s@[i as int]);
            assert(suffix.subrange(1, suffix.len() as int) =~= s@.subrange(i + 1, n as int));
        }
        if is_whitespace_char(c) {
            if str_eq(s.substring_char(seg_start, i), w) {
                return true;
            }
            proof {
                assert(s@.subrange(i + 1, i + 1) =~= Seq::<char>::empty());
            }
            seg_start = i + 1;
        } else {
            proof {
                assert(seg.push(suffix[0]) =~= s@.subrange(seg_start as int, i + 1));
            }
        }
        i = i + 1;
    }
    str_eq(s.substring_char(seg_start, n), w)
}

/// The declared family a preloaded font's filename suggests: the name with
/// its last dot-suffix removed, wherever that dot stands.
pub open spec fn spec_family_from_name(name: Seq<char>) -> Seq<char> {
    if exists|i: int| 0 <= i < name.len() && name[i] == '.' {
        name.subrange(0, spec_last_dot_any(name))
    } else {
        name
    }
}

/// Derives a family from a preloaded font's filename.
pub fn family_from_name(name: &str) -> (r: String)
    ensures
        r@ == spec_family_from_name(name@),
{
    let n = name.unicode_len();
    let mut i: usize = n;
    while i > 0
        invariant
            i <= n,
            n == name@.len(),
            forall|j: int| i <= j < n ==> name@[j] != '.',
        decreases i,
    {
        if name.get_char(i - 1) == '.' {
            proof {
                let d = i - 1;
                assert(0 <= d < name@.len() && name@[d] == '.');
                let w = spec_last_dot_any(name@);
                assert(w == d) by {
                    if w < d {
                        assert(name@[d] == '.');
                    }
                    if w > d {
                        assert(name@[w] != '.');
                    }
                }
            }
            return String::from_str(name.substring_char(0, i - 1));
        }
        i = i - 1;
    }
    proof {
        assert(forall|j: int| 0 <= j < name@.len() ==> name@[j] != '.');
    }
    String::from_str(name)
}

/// What one link element contributes: a preloaded font record, a stylesheet
/// URL to crawl, or nothing.
pub open spec fn spec_link_item(
    link: (Seq<char>, Seq<char>, Seq<char>),
    base: Seq<char>,
) -> (Option<FontData>, Option<Seq<char>>) {
    let rel = spec_lower_seq(link.0);
    let href = link.1;
    let as_attr = spec_lower_seq(link.2);
    if href.len() == 0 {
        (None, None)
    } else {
        match spec_resolve(base, href) {
            None => (None, None),
            Some(resolved) => {
                if spec_has_word(rel, "stylesheet"@) || ((spec_has_word(rel, "preload"@)
                    || spec_has_word(rel, "prefetch"@)) && as_attr == "style"@) {
                    (None, parsed_url_of(resolved))
                } else if (spec_has_word(rel, "preload"@) || spec_has_word(rel, "prefetch"@))
                    && as_attr == "font"@ {
                    let name = match spec_file_name_from_url(resolved) {
                        Some(nm) => nm,
                        None => "preloaded-font"@,
                    };
                    (
                        Some(
                            FontData {
                                name: name,
                                family: spec_family_from_name(name),
                                format: spec_format_from_url(resolved),
                                url: resolved,
                                weight: "400"@,
                                style: "normal"@,
                                referer: base,
                            },
                        ),
                        None,
                    )
                } else {
                    (None, None)
                }
            },
        }
    }
}

/// The preloaded font records and crawlable stylesheet URLs of a link list,
/// in document order.
pub open spec fn spec_scan_links(
    links: Seq<(Seq<char>, Seq<char>, Seq<char>)>,
    base: Seq<char>,
) -> (Seq<FontData>, Seq<Seq<char>>)
    decreases links.len(),
{
    if links.len() == 0 {
        (Seq::<FontData>::empty(), Seq::<Seq<char>>::empty())
    } else {
        let item = spec_link_item(links[0], base);
        let rest = spec_scan_links(links.subrange(1, links.len() as int), base);
        let fonts = match item.0 {
            Some(f) => seq![f] + rest.0,
            None => rest.0,
        };
        let urls = match item.1 {
            Some(u) => seq![u] + rest.1,
            None => rest.1,
        };
        (fonts, urls)
    }
}

/// What one link element contributes.
fn link_item(rel: &String, href: &String, as_attr: &String, base: &str) -> (r: (
    Option<FontInfo>,
    Option<String>,
))
    ensures
        ({
            let s = spec_link_item((rel@, href@, as_attr@), base@);
            &&& match r.0 {
                Some(f) => s.0 == Some(f@),
                None => s.0 is None,
            }
            &&& crate::text::spec_opt_str(r.1) == s.1
        }),
{
    let rel_l = to_lower(rel.as_str());
    let as_l = to_lower(as_attr.as_str());
    if href.as_str().unicode_len() == 0 {
        return (None, None);
    }
    let resolved = match resolve_url(base, href.as_str()) {
        Some(u) => u,
        None => {
            return (None, None);
        },
    };
    let is_stylesheet = has_word(rel_l.as_str(), "stylesheet");
    let is_preload = has_word(rel_l.as_str(), "preload");
    let is_prefetch = has_word(rel_l.as_str(), "prefetch");
    if is_stylesheet || ((is_preload || is_prefetch) && str_eq(as_l.as_str(), "style")) {
        let gated = crate::resolve::url_parse_normalize(resolved.as_str());
        return (None, gated);
    }
    if (is_preload || is_prefetch) && str_eq(as_l.as_str(), "font") {
        let name = match file_name_from_url(resolved.as_str()) {
            Some(nm) => nm,
            None => String::from_str("preloaded-font"),
        };
        let family = family_from_name(name.as_str());
        let format = format_from_url(resolved.as_str());
        let record = FontInfo {
            name,
            family,
            format,
            url: resolved,
            weight: String::from_str("400"),
            style: String::from_str("normal"),
            referer: String::from_str(base),
        };
        return (Some(record), None);
    }
    (None, None)
}

/// Scans a page's link elements: preloaded and prefetched fonts become
/// standalone records with default weight and style, and stylesheet links
/// (including preloads and prefetches as style) become URLs to crawl.
pub fn scan_links(html: &str, page_url: &str) -> (r: (Vec<FontInfo>, Vec<String>))
    ensures
        spec_fonts(r.0@) == spec_scan_links(link_elements_of(html@), page_url@).0,
        spec_strs(r.1@) == spec_scan_links(link_elements_of(html@), page_url@).1,
{
    let links = html_link_elements(html);
    let ghost lv = spec_triples(links@);
    let mut fonts: Vec<FontInfo> = Vec::new();
    let mut urls: Vec<String> = Vec::new();
    let mut k: usize = 0;
    proof {
        assert(lv.subrange(0, lv.len() as int) =~= lv);
        assert(spec_fonts(fonts@) + spec_scan_links(lv, page_url@).0 =~= spec_scan_links(
            lv,
            page_url@,
        ).0);
        assert(spec_strs(urls@) + spec_scan_links(lv, page_url@).1 =~= spec_scan_links(
            lv,
            page_url@,
        ).1);
    }
    while k < links.len()
        invariant
            k <= links@.len(),
            lv == spec_triples(links@),
            spec_fonts(fonts@) + spec_scan_links(
                lv.subrange(k as int, lv.len() as int),
                page_url@,
            ).0 == spec_scan_links(lv, page_url@).0,
            spec_strs(urls@) + spec_scan_links(
                lv.subrange(k as int, lv.len() as int),
                page_url@,
            ).1 == spec_scan_links(lv, page_url@).1,
        decreases links@.len() - k,
    {
        let ghost rest = lv.subrange(k as int, lv.len() as int);
        proof {
            assert(rest[0] == lv[k as int]);
            assert(lv[k as int] == (links@[k as int].0@, links@[k as int].1@, links@[k
                as int].2@));
            assert(rest.subrange(1, rest.len() as int) =~= lv.subrange(k + 1, lv.len() as int));
        }
        let item = link_item(&links[k].0, &links[k].1, &links[k].2, page_url);
        let ghost pre_fonts = spec_fonts(fonts@);
        let ghost pre_urls = spec_strs(urls@);
        let (record, sheet) = item;
        match record {
            Some(f) => {
                let ghost fv = f@;
                fonts.push(f);
                proof {
                    assert(spec_fonts(fonts@) =~= pre_fonts.push(fv));
                    assert(spec_fonts(fonts@) + spec_scan_links(
                        lv.subrange(k + 1, lv.len() as int),
                        page_url@,
                    ).0 =~= pre_fonts + (seq![fv] + spec_scan_links(
                        lv.subrange(k + 1, lv.len() as int),
                        page_url@,
                    ).0));
                }
            },
            None => {},
        }
        match sheet {
            Some(u) => {
                let ghost uv = u@;
                urls.push(u);
                proof {
                    assert(spec_strs(urls@) =~= pre_urls.push(uv));
                    assert(spec_strs(urls@) + spec_scan_links(
                        lv.subrange(k + 1, lv.len() as int),
                        page_url@,
                    ).1 =~= pre_urls + (seq![uv] + spec_scan_links(
                        lv.subrange(k + 1, lv.len() as int),
                        page_url@,
                    ).1));
                }
            },
            None => {},
        }
        k = k + 1;
    }
    proof {
        assert(lv.subrange(lv.len() as int, lv.len() as int).len() == 0);
        assert(spec_scan_links(
            lv.subrange(lv.len() as int, lv.len() as int),
            page_url@,
        ).0 =~= Seq::<FontData>::empty());
        assert(spec_scan_links(
            lv.subrange(lv.len() as int, lv.len() as int),
            page_url@,
        ).1 =~= Seq::<Seq<char>>::empty());
        assert(spec_fonts(fonts@) + Seq::<FontData>::empty() =~= spec_fonts(fonts@));
        assert(spec_strs(urls@) + Seq::<Seq<char>>::empty() =~= spec_strs(urls@));
    }
    (fonts, urls)
}

/// The import crawl in progress: the stylesheet URLs already processed (the
/// cycle guard), the queue of URLs waiting with their depths, the records
/// gathered so far, and the page URL every request will cite.
pub struct CrawlState {
    pub visited: Vec<String>,
    pub pending: Vec<(String, usize)>,
    pub fonts: Vec<FontInfo>,
    pub referer: String,
}

/// The mathematical image of a [`CrawlState`].
pub ghost struct CrawlData {
    pub visited: Seq<Seq<char>>,
    pub pending: Seq<(Seq<char>, usize)>,
    pub fonts: Seq<FontData>,
    pub referer: Seq<char>,
}

impl View for CrawlState {
    type V = CrawlData;

    open spec fn view(&self) -> CrawlData {
        CrawlData {
            visited: spec_strs(self.visited@),
            pending: self.pending@.map_values(|p: (String, usize)| (p.0@, p.1)),
            fonts: spec_fonts(self.fonts@),
            referer: self.referer@,
        }
    }
}

/// A fresh crawl that will cite `referer`.
pub fn crawl_begin(referer: String) -> (r: CrawlState)
    ensures
        r@.visited.len() == 0,
        r@.pending.len() == 0,
        r@.fonts.len() == 0,
        r@.referer == referer@,
{
    let r = CrawlState { visited: Vec::new(), pending: Vec::new(), fonts: Vec::new(), referer };
    proof {
        assert(r@.visited =~= Seq::<Seq<char>>::empty());
        assert(r@.pending =~= Seq::<(Seq<char>, usize)>::empty());
        assert(r@.fonts =~= Seq::<FontData>::empty());
    }
    r
}

/// Queues a stylesheet URL at the given depth, behind the queue.
pub fn crawl_enqueue(state: &mut CrawlState, url: String, depth: usize)
    ensures
        final(state)@.pending == old(state)@.pending.push((url@, depth)),
        final(state)@.visited == old(state)@.visited,
        final(state)@.fonts == old(state)@.fonts,
        final(state)@.referer == old(state)@.referer,
{
    state.pending.push((url, depth));
    proof {
        assert(state@.pending =~= old(state)@.pending.push((state.pending@.last().0@, state.pending@.last().1)));
    }
}

/// Appends already-built records, such as preloaded font links.
pub fn crawl_add_fonts(state: &mut CrawlState, records: Vec<FontInfo>)
    ensures
        final(state)@.fonts == old(state)@.fonts + spec_fonts(records@),
        final(state)@.visited == old(state)@.visited,
        final(state)@.pending == old(state)@.pending,
        final(state)@.referer == old(state)@.referer,
{
    let ghost rv = spec_fonts(records@);
    let mut k: usize = 0;
    while k < records.len()
        invariant
            k <= records@.len(),
            rv == spec_fonts(records@),
            state@.fonts == old(state)@.fonts + rv.subrange(0, k as int),
            state@.visited == old(state)@.visited,
            state@.pending == old(state)@.pending,
            state@.referer == old(state)@.referer,
        decreases records@.len() - k,
    {
        let f = records[k].clone();
        let ghost pre = state@.fonts;
        state.fonts.push(f);
        proof {
            assert(state@.fonts =~= pre.push(rv[k as int]));
            assert(rv.subrange(0, k + 1) =~= rv.subrange(0, k as int).push(rv[k as int]));
            assert(state@.fonts =~= old(state)@.fonts + rv.subrange(0, k + 1));
        }
        k = k + 1;
    }
    proof {
        assert(rv.subrange(0, rv.len() as int) =~= rv);
    }
}

/// Takes in one stylesheet's text, fetched from `base_url`: its font-face
/// records join the gathered list, and its imports go to the front of the
/// queue, in order, at `import_depth`.
pub fn ingest_css(state: &mut CrawlState, css: &str, base_url: &str, import_depth: usize)
    ensures
        final(state)@.fonts == old(state)@.fonts + spec_parse_css_fonts(
            css@,
            base_url@,
            old(state)@.referer,
        ),
        final(state)@.pending == spec_import_urls(css@, base_url@).map_values(
            |u: Seq<char>| (u, import_depth),
        ) + old(state)@.pending,
        final(state)@.visited == old(state)@.visited,
        final(state)@.referer == old(state)@.referer,
{
    let referer = state.referer.clone();
    let (mut fonts, imports) = parse_css(css, base_url, referer.as_str());
    let ghost fv = spec_fonts(fonts@);
    let ghost iv = spec_strs(imports@);
    let mut k: usize = 0;
    while k < fonts.len()
        invariant
            k <= fonts@.len(),
            fv == spec_fonts(fonts@),
            state@.fonts == old(state)@.fonts + fv.subrange(0, k as int),
            state@.visited == old(state)@.visited,
            state@.pending == old(state)@.pending,
            state@.referer == old(state)@.referer,
        decreases fonts@.len() - k,
    {
        let f = fonts[k].clone();
        let ghost pre = state@.fonts;
        state.fonts.push(f);
        proof {
            assert(state@.fonts =~= pre.push(fv[k as int]));
            assert(fv.subrange(0, k + 1) =~= fv.subrange(0, k as int).push(fv[k as int]));
            assert(state@.fonts =~= old(state)@.fonts + fv.subrange(0, k + 1));
        }
        k = k + 1;
    }
    proof {
        assert(fv.subrange(0, fv.len() as int) =~= fv);
        assert(fv == spec_parse_css_fonts(css@, base_url@, old(state)@.referer));
    }
    let mut fresh: Vec<(String, usize)> = Vec::new();
    let mut j: usize = 0;
    while j < imports.len()
        invariant
            j <= imports@.len(),
            iv == spec_strs(imports@),
            fresh@.map_values(|p: (String, usize)| (p.0@, p.1)) == iv.subrange(
                0,
                j as int,
            ).map_values(|u: Seq<char>| (u, import_depth)),
        decreases imports@.len() - j,
    {
        let u = imports[j].clone();
        let ghost pre = fresh@.map_values(|p: (String, usize)| (p.0@, p.1));
        fresh.push((u, import_depth));
        proof {
            assert(u@ == iv[j as int]);
            assert(fresh@.map_values(|p: (String, usize)| (p.0@, p.1)) =~= pre.push(
                (iv[j as int], import_depth),
            ));
            assert(iv.subrange(0, j + 1).map_values(|uu: Seq<char>| (uu, import_depth)) =~= iv
                .subrange(0, j as int).map_values(|uu: Seq<char>| (uu, import_depth)).push(
                (iv[j as int], import_depth),
            ));
        }
        j = j + 1;
    }
    proof {
        assert(iv.subrange(0, iv.len() as int) =~= iv);
    }
    let mut t: usize = 0;
    let ghost fresh_v = fresh@.map_values(|p: (String, usize)| (p.0@, p.1));
    let ghost old_pending = state@.pending;
    proof {
        assert(fresh_v == iv.map_values(|u: Seq<char>| (u, import_depth)));
        assert(old_pending.subrange(0, 0) =~= Seq::<(Seq<char>, usize)>::empty());
        assert(fresh_v + old_pending.subrange(0, 0) =~= fresh_v);
    }
    while t < state.pending.len()
        invariant
            t <= state.pending@.len(),
            fresh@.map_values(|p: (String, usize)| (p.0@, p.1)) == fresh_v + old_pending.subrange(
                0,
                t as int,
            ),
            state@.pending == old_pending,
            state@.fonts == old(state)@.fonts + fv,
            state@.visited == old(state)@.visited,
            state@.referer == old(state)@.referer,
        decreases state.pending@.len() - t,
    {
        let entry_url = state.pending[t].0.clone();
        let entry_depth = state.pending[t].1;
        let ghost pre = fresh@.map_values(|p: (String, usize)| (p.0@, p.1));
        fresh.push((entry_url, entry_depth));
        proof {
            assert(fresh@.map_values(|p: (String, usize)| (p.0@, p.1)) =~= pre.push(
                old_pending[t as int],
            ));
            assert(fresh_v + old_pending.subrange(0, t + 1) =~= (fresh_v + old_pending.subrange(
                0,
                t as int,
            )).push(old_pending[t as int]));
        }
        t = t + 1;
    }
    proof {
        assert(old_pending.subrange(0, old_pending.len() as int) =~= old_pending);
    }
    state.pending = fresh;
    proof {
        assert(state@.pending =~= spec_import_urls(css@, base_url@).map_values(
            |u: Seq<char>| (u, import_depth),
        ) + old(state)@.pending);
    }
}

/// What one dequeue step yields: entries too deep or already visited are
/// discarded until one is processable; that one's URL joins the visited set
/// and comes back for fetching.
pub open spec fn spec_next(visited: Seq<Seq<char>>, pending: Seq<(Seq<char>, usize)>) -> (
    Option<(Seq<char>, usize)>,
    Seq<Seq<char>>,
    Seq<(Seq<char>, usize)>,
)
    decreases pending.len(),
{
    if pending.len() == 0 {
        (None, visited, pending)
    } else {
        let entry = pending[0];
        let rest = pending.subrange(1, pending.len() as int);
        if entry.1 > MAX_IMPORT_DEPTH || visited.contains(entry.0) {
            spec_next(visited, rest)
        } else {
            (Some(entry), visited.push(entry.0), rest)
        }
    }
}

/// Dequeues the next stylesheet to fetch, discarding entries beyond the
/// depth bound or already visited; the returned URL is recorded as visited
/// before any fetch, so no stylesheet is ever processed twice.
pub fn crawl_next(state: &mut CrawlState) -> (r: Option<(String, usize)>)
    ensures
        ({
            let s = spec_next(old(state)@.visited, old(state)@.pending);
            &&& match r {
                Some(entry) => s.0 == Some((entry.0@, entry.1)),
                None => s.0 is None,
            }
            &&& final(state)@.visited == s.1
            &&& final(state)@.pending == s.2
        }),
        final(state)@.fonts == old(state)@.fonts,
        final(state)@.referer == old(state)@.referer,
        r matches Some(entry) ==> !old(state)@.visited.contains(entry.0@) && final(state)@.visited
            == old(state)@.visited.push(entry.0@) && entry.1 <= MAX_IMPORT_DEPTH,
{
    loop
        invariant
            spec_next(old(state)@.visited, old(state)@.pending) == spec_next(
                state@.visited,
                state@.pending,
            ),
            state@.visited == old(state)@.visited,
            state@.fonts == old(state)@.fonts,
            state@.referer == old(state)@.referer,
        decreases state.pending@.len(),
    {
        if state.pending.len() == 0 {
            proof {
                assert(state@.pending.len() == 0);
            }
            return None;
        }
        let ghost pre_pending = state@.pending;
        let entry = state.pending.remove(0);
        proof {
            assert((entry.0@, entry.1) == pre_pending[0]);
            assert(state@.pending =~= pre_pending.subrange(1, pre_pending.len() as int));
        }
        let too_deep = entry.1 > MAX_IMPORT_DEPTH;
        let seen = contains_string(&state.visited, &entry.0);
        if too_deep || seen {
            proof {
                assert(spec_next(state@.visited, pre_pending) == spec_next(
                    state@.visited,
                    state@.pending,
                ));
            }
        } else {
            let ghost pre_visited = state@.visited;
            let url_copy = entry.0.clone();
            state.visited.push(url_copy);
            proof {
                assert(state@.visited =~= pre_visited.push(entry.0@));
                assert(spec_next(pre_visited, pre_pending) == (
                    Some((entry.0@, entry.1)),
                    pre_visited.push(entry.0@),
                    pre_pending.subrange(1, pre_pending.len() as int),
                ));
            }
            return Some(entry);
        }
    }
}

/// Records kept after URL deduplication, given the URLs already seen: the
/// first record with each URL stays, later ones with the same URL are
/// discarded.
pub open spec fn spec_dedupe_acc(s: Seq<FontData>, seen: Seq<Seq<char>>) -> Seq<FontData>
    decreases s.len(),
{
    if s.len() == 0 {
        Seq::<FontData>::empty()
    } else if seen.contains(s[0].url) {
        spec_dedupe_acc(s.subrange(1, s.len() as int), seen)
    } else {
        seq![s[0]] + spec_dedupe_acc(s.subrange(1, s.len() as int), seen.push(s[0].url))
    }
}

/// The record list with URL duplicates dropped, first occurrence kept.
pub open spec fn spec_dedupe(s: Seq<FontData>) -> Seq<FontData> {
    spec_dedupe_acc(s, Seq::empty())
}

/// Drops records whose URL appeared earlier in the list, keeping the first
/// occurrence of each URL with its metadata.
pub fn dedupe_fonts(fonts: &mut Vec<FontInfo>)
    ensures
        spec_fonts(final(fonts)@) == spec_dedupe(spec_fonts(old(fonts)@)),
{
    let ghost total = spec_fonts(fonts@);
    let mut seen: Vec<String> = Vec::new();
    let mut out: Vec<FontInfo> = Vec::new();
    let mut k: usize = 0;
    proof {
        assert(total.subrange(0, total.len() as int) =~= total);
        assert(spec_strs(seen@) =~= Seq::<Seq<char>>::empty());
        assert(spec_fonts(out@) + spec_dedupe_acc(total, spec_strs(seen@)) =~= spec_dedupe_acc(
            total,
            spec_strs(seen@),
        ));
    }
    while k < fonts.len()
        invariant
            k <= fonts@.len(),
            total == spec_fonts(fonts@),
            spec_fonts(out@) + spec_dedupe_acc(
                total.subrange(k as int, total.len() as int),
                spec_strs(seen@),
            ) == spec_dedupe(total),
        decreases fonts@.len() - k,
    {
        let ghost rest = total.subrange(k as int, total.len() as int);
        proof {
            assert(rest[0] == total[k as int]);
            assert(total[k as int] == fonts@[k as int]@);
            assert(rest.subrange(1, rest.len() as int) =~= total.subrange(
                k + 1,
                total.len() as int,
            ));
        }
        let is_seen = contains_string(&seen, &fonts[k].url);
        if !is_seen {
            let ghost pre_seen = spec_strs(seen@);
            let ghost pre_out = spec_fonts(out@);
            let record = fonts[k].clone();
            let url_copy = record.url.clone();
            seen.push(url_copy);
            out.push(record);
            proof {
                assert(spec_strs(seen@) =~= pre_seen.push(total[k as int].url));
                assert(spec_fonts(out@) =~= pre_out.push(total[k as int]));
                assert(spec_fonts(out@) + spec_dedupe_acc(
                    total.subrange(k + 1, total.len() as int),
                    spec_strs(seen@),
                ) =~= pre_out + (seq![total[k as int]] + spec_dedupe_acc(
                    total.subrange(k + 1, total.len() as int),
                    pre_seen.push(total[k as int].url),
                )));
            }
        }
        k = k + 1;
    }
    proof {
        assert(total.subrange(total.len() as int, total.len() as int).len() == 0);
        assert(spec_dedupe_acc(
            total.subrange(total.len() as int, total.len() as int),
            spec_strs(seen@),
        ) =~= Seq::<FontData>::empty());
        assert(spec_fonts(out@) + Seq::<FontData>::empty() =~= spec_fonts(out@));
    }
    *fonts = out;
}

proof fn lemma_dedupe_acc_distinct(s: Seq<FontData>, seen: Seq<Seq<char>>)
    ensures
        ({
            let r = spec_dedupe_acc(s, seen);
            &&& forall|k: int, l: int|
                0 <= k < l < r.len() ==> (#[trigger] r[k]).url != (#[trigger] r[l]).url
            &&& forall|k: int| 0 <= k < r.len() ==> !seen.contains((#[trigger] r[k]).url)
        }),
    decreases s.len(),
{
    if s.len() > 0 {
        let rest = s.subrange(1, s.len() as int);
        let r = spec_dedupe_acc(s, seen);
        if seen.contains(s[0].url) {
            lemma_dedupe_acc_distinct(rest, seen);
            assert(r == spec_dedupe_acc(rest, seen));
        } else {
            let seen2 = seen.push(s[0].url);
            lemma_dedupe_acc_distinct(rest, seen2);
            let rr = spec_dedupe_acc(rest, seen2);
            assert(r =~= seq![s[0]] + rr);
            assert(seen2[seen.len() as int] == s[0].url);
            assert(seen2.contains(s[0].url));
            assert(forall|k: int| 1 <= k < r.len() ==> #[trigger] r[k] == rr[k - 1]);
            assert forall|k: int| 0 <= k < r.len() implies !seen.contains(
                (#[trigger] r[k]).url,
            ) by {
                if k >= 1 {
                    assert(!seen2.contains(rr[k - 1].url));
                    if seen.contains(r[k].url) {
                        let t = choose|t: int| 0 <= t < seen.len() && seen[t] == r[k].url;
                        assert(seen2[t] == r[k].url);
                    }
                }
            }
            assert forall|k: int, l: int|
                0 <= k < l < r.len() implies (#[trigger] r[k]).url != (#[trigger] r[l]).url by {
                if k == 0 {
                    assert(!seen2.contains(rr[l - 1].url));
                }
            }
        }
    }
}

proof fn lemma_dedupe_acc_first(s: Seq<FontData>, seen: Seq<Seq<char>>)
    ensures
        ({
            let r = spec_dedupe_acc(s, seen);
            forall|k: int|
                #![trigger r[k]]
                0 <= k < r.len() ==> exists|i: int|
                    0 <= i < s.len() && #[trigger] s[i] == r[k] && (forall|j: int|
                        0 <= j < i ==> (#[trigger] s[j]).url != r[k].url)
        }),
    decreases s.len(),
{
    if s.len() > 0 {
        let rest = s.subrange(1, s.len() as int);
        let r = spec_dedupe_acc(s, seen);
        if seen.contains(s[0].url) {
            lemma_dedupe_acc_first(rest, seen);
            lemma_dedupe_acc_distinct(rest, seen);
            let rr = spec_dedupe_acc(rest, seen);
            assert(r == rr);
            assert forall|k: int|
                #![trigger r[k]]
                0 <= k < r.len() implies exists|i: int|
                    0 <= i < s.len() && #[trigger] s[i] == r[k] && (forall|j: int|
                        0 <= j < i ==> (#[trigger] s[j]).url != r[k].url) by {
                assert(exists|i: int|
                    0 <= i < rest.len() && #[trigger] rest[i] == rr[k] && (forall|j: int|
                        0 <= j < i ==> (#[trigger] rest[j]).url != rr[k].url));
                let i0 = choose|i: int|
                    0 <= i < rest.len() && #[trigger] rest[i] == rr[k] && (forall|j: int|
                        0 <= j < i ==> (#[trigger] rest[j]).url != rr[k].url);
                assert(s[i0 + 1] == r[k]);
                assert(!seen.contains(r[k].url));
                assert(s[0].url != r[k].url);
                assert forall|j: int| 0 <= j < i0 + 1 implies (#[trigger] s[j]).url
                    != r[k].url by {
                    if j >= 1 {
                        assert(rest[j - 1] == s[j]);
                    }
                }
            }
        } else {
            let seen2 = seen.push(s[0].url);
            lemma_dedupe_acc_first(rest, seen2);
            lemma_dedupe_acc_distinct(rest, seen2);
            let rr = spec_dedupe_acc(rest, seen2);
            assert(r =~= seq![s[0]] + rr);
            assert(r[0] == s[0]);
            assert(seen2[seen.len() as int] == s[0].url);
            assert(seen2.contains(s[0].url));
            assert(forall|k: int| 1 <= k < r.len() ==> #[trigger] r[k] == rr[k - 1]);
            assert forall|k: int|
                #![trigger r[k]]
                0 <= k < r.len() implies exists|i: int|
                    0 <= i < s.len() && #[trigger] s[i] == r[k] && (forall|j: int|
                        0 <= j < i ==> (#[trigger] s[j]).url != r[k].url) by {
                if k == 0 {
                    assert(s[0] == r[0]);
                    assert(forall|j: int| 0 <= j < 0 ==> (#[trigger] s[j]).url != r[0].url);
                } else {
                    assert(exists|i: int|
                        0 <= i < rest.len() && #[trigger] rest[i] == rr[k - 1] && (forall|j: int|
                            0 <= j < i ==> (#[trigger] rest[j]).url != rr[k - 1].url));
                    let i0 = choose|i: int|
                        0 <= i < rest.len() && #[trigger] rest[i] == rr[k - 1] && (forall|j: int|
                            0 <= j < i ==> (#[trigger] rest[j]).url != rr[k - 1].url);
                    assert(s[i0 + 1] == r[k]);
                    assert(!seen2.contains(rr[k - 1].url));
                    assert(s[0].url != r[k].url);
                    assert forall|j: int| 0 <= j < i0 + 1 implies (#[trigger] s[j]).url
                        != r[k].url by {
                        if j >= 1 {
                            assert(rest[j - 1] == s[j]);
                        }
                    }
                }
            }
        }
    }
}

proof fn lemma_dedupe_acc_complete(s: Seq<FontData>, seen: Seq<Seq<char>>)
    ensures
        ({
            let r = spec_dedupe_acc(s, seen);
            forall|i: int|
                #![trigger s[i]]
                0 <= i < s.len() && !seen.contains(s[i].url) ==> exists|k: int|
                    0 <= k < r.len() && (#[trigger] r[k]).url == s[i].url
        }),
    decreases s.len(),
{
    if s.len() > 0 {
        let rest = s.subrange(1, s.len() as int);
        let r = spec_dedupe_acc(s, seen);
        if seen.contains(s[0].url) {
            lemma_dedupe_acc_complete(rest, seen);
            assert(r == spec_dedupe_acc(rest, seen));
            assert forall|i: int|
                #![trigger s[i]]
                0 <= i < s.len() && !seen.contains(s[i].url) implies exists|k: int|
                    0 <= k < r.len() && (#[trigger] r[k]).url == s[i].url by {
                if i >= 1 {
                    assert(rest[i - 1] == s[i]);
                }
            }
        } else {
            let seen2 = seen.push(s[0].url);
            lemma_dedupe_acc_complete(rest, seen2);
            let rr = spec_dedupe_acc(rest, seen2);
            assert(r =~= seq![s[0]] + rr);
            assert(r[0] == s[0]);
            assert(seen2[seen.len() as int] == s[0].url);
            assert(forall|k: int| 1 <= k < r.len() ==> #[trigger] r[k] == rr[k - 1]);
            assert forall|i: int|
                #![trigger s[i]]
                0 <= i < s.len() && !seen.contains(s[i].url) implies exists|k: int|
                    0 <= k < r.len() && (#[trigger] r[k]).url == s[i].url by {
                if i == 0 {
                    assert(r[0].url == s[0].url);
                } else {
                    assert(rest[i - 1] == s[i]);
                    if s[i].url == s[0].url {
                        assert(r[0].url == s[i].url);
                    } else {
                        if seen2.contains(s[i].url) {
                            let t = choose|t: int| 0 <= t < seen2.len() && seen2[t] == s[i].url;
                            assert(t < seen.len());
                            assert(seen[t] == s[i].url);
                        }
                        let k0 = choose|k: int|
                            0 <= k < rr.len() && (#[trigger] rr[k]).url == rest[i - 1].url;
                        assert(r[k0 + 1].url == s[i].url);
                    }
                }
            }
        }
    }
}

/// Law: in a deduplicated record list, URLs are pairwise distinct — one
/// record per URL.
pub proof fn lemma_dedupe_urls_distinct(s: Seq<FontData>)
    ensures
        forall|k: int, l: int|
            0 <= k < l < spec_dedupe(s).len() ==> (#[trigger] spec_dedupe(s)[k]).url != (
            #[trigger] spec_dedupe(s)[l]).url,
{
    lemma_dedupe_acc_distinct(s, Seq::empty());
}

/// Law: each record deduplication keeps is the input's first record with its
/// URL, metadata and all — later duplicates are the ones discarded.
pub proof fn lemma_dedupe_keeps_first(s: Seq<FontData>)
    ensures
        forall|k: int|
            #![trigger spec_dedupe(s)[k]]
            0 <= k < spec_dedupe(s).len() ==> exists|i: int|
                0 <= i < s.len() && #[trigger] s[i] == spec_dedupe(s)[k] && (forall|j: int|
                    0 <= j < i ==> (#[trigger] s[j]).url != spec_dedupe(s)[k].url),
{
    lemma_dedupe_acc_first(s, Seq::empty());
}

/// Law: deduplication loses no URL — every record of the input still has a
/// record with its URL in the deduplicated list.
pub proof fn lemma_dedupe_covers_all(s: Seq<FontData>)
    ensures
        forall|i: int|
            #![trigger s[i]]
            0 <= i < s.len() ==> exists|k: int|
                0 <= k < spec_dedupe(s).len() && (#[trigger] spec_dedupe(s)[k]).url == s[i].url,
{
    lemma_dedupe_acc_complete(s, Seq::empty());
    let r = spec_dedupe(s);
    assert forall|i: int|
        #![trigger s[i]]
        0 <= i < s.len() implies exists|k: int|
            0 <= k < r.len() && (#[trigger] r[k]).url == s[i].url by {
        assert(!Seq::<Seq<char>>::empty().contains(s[i].url)) by {
            if Seq::<Seq<char>>::empty().contains(s[i].url) {
                let t = choose|t: int|
                    0 <= t < Seq::<Seq<char>>::empty().len() && Seq::<Seq<char>>::empty()[t] == s[
                        i].url;
            }
        }
    }
}

/// Two positions holding one value give it a count of at least two.
proof fn lemma_dup_count(s: Seq<FontData>, k: int, l: int)
    requires
        0 <= k < l < s.len(),
        s[k] == s[l],
    ensures
        s.to_multiset().count(s[k]) >= 2,
{
    broadcast use vstd::seq_lib::group_to_multiset_ensures;
    broadcast use vstd::multiset::group_multiset_axioms;

    let shorter = s.remove(k);
    assert(shorter.to_multiset() =~= s.to_multiset().remove(s[k]));
    assert(shorter[l - 1] == s[l]);
    assert(shorter.contains(s[k]));
    assert(shorter.to_multiset().count(s[k]) > 0);
    assert(s.to_multiset().count(s[k]) == shorter.to_multiset().count(s[k]) + 1);
}

/// A count of at least two puts the value at two distinct positions.
proof fn lemma_count_two_positions(s: Seq<FontData>, v: FontData)
    requires
        s.to_multiset().count(v) >= 2,
    ensures
        exists|k: int, l: int| 0 <= k < l < s.len() && #[trigger] s[k] == v && #[trigger] s[l] == v,
{
    broadcast use vstd::seq_lib::group_to_multiset_ensures;
    broadcast use vstd::multiset::group_multiset_axioms;

    assert(s.contains(v));
    let k = choose|k: int| 0 <= k < s.len() && s[k] == v;
    let shorter = s.remove(k);
    assert(shorter.to_multiset() =~= s.to_multiset().remove(v));
    assert(shorter.to_multiset().count(v) >= 1);
    assert(shorter.contains(v));
    let j = choose|j: int| 0 <= j < shorter.len() && shorter[j] == v;
    if j < k {
        assert(s[j] == shorter[j]);
        assert(0 <= j < k < s.len() && s[j] == v && s[k] == v);
    } else {
        assert(s[j + 1] == shorter[j]);
        assert(0 <= k < j + 1 < s.len() && s[k] == v && s[j + 1] == v);
    }
}

/// A permutation of records whose URLs are pairwise distinct keeps them so.
proof fn lemma_permutation_keeps_distinct_urls(d: Seq<FontData>, r: Seq<FontData>)
    requires
        forall|k: int, l: int|
            0 <= k < l < d.len() ==> (#[trigger] d[k]).url != (#[trigger] d[l]).url,
        r.to_multiset() == d.to_multiset(),
    ensures
        forall|k: int, l: int|
            0 <= k < l < r.len() ==> (#[trigger] r[k]).url != (#[trigger] r[l]).url,
{
    broadcast use vstd::seq_lib::group_to_multiset_ensures;
    broadcast use vstd::multiset::group_multiset_axioms;

    assert forall|k: int, l: int|
        0 <= k < l < r.len() implies (#[trigger] r[k]).url != (#[trigger] r[l]).url by {
        if r[k].url == r[l].url {
            if r[k] == r[l] {
                lemma_dup_count(r, k, l);
                lemma_count_two_positions(d, r[k]);
                let (k2, l2): (int, int) = choose|k2: int, l2: int|
                    0 <= k2 < l2 < d.len() && #[trigger] d[k2] == r[k] && #[trigger] d[l2] == r[
                        k];
                assert(d[k2].url != d[l2].url);
            } else {
                assert(r.contains(r[k]));
                assert(r.contains(r[l]));
                assert(d.to_multiset().count(r[k]) > 0);
                assert(d.to_multiset().count(r[l]) > 0);
                assert(d.contains(r[k]));
                assert(d.contains(r[l]));
                let i1 = choose|i: int| 0 <= i < d.len() && d[i] == r[k];
                let i2 = choose|i: int| 0 <= i < d.len() && d[i] == r[l];
                assert(i1 != i2);
                if i1 < i2 {
                    assert(d[i1].url != d[i2].url);
                } else {
                    assert(d[i2].url != d[i1].url);
                }
            }
        }
    }
}

/// Law: a finished extraction holds exactly one record per URL. After URL
/// deduplication the canonical sort only permutes the records, so the
/// pairwise-distinct URLs survive into the final, ordered list.
pub proof fn lemma_extraction_urls_distinct(s: Seq<FontData>)
    ensures
        forall|k: int, l: int|
            0 <= k < l < spec_sort_fonts(spec_dedupe(s)).len() ==> (#[trigger] spec_sort_fonts(
                spec_dedupe(s),
            )[k]).url != (#[trigger] spec_sort_fonts(spec_dedupe(s))[l]).url,
{
    lemma_dedupe_urls_distinct(s);
    crate::model::lemma_sort_fonts_canonical(spec_dedupe(s));
    lemma_permutation_keeps_distinct_urls(spec_dedupe(s), spec_sort_fonts(spec_dedupe(s)));
}

/// Law: the import crawl cannot revisit a stylesheet or run without bound.
/// A dequeue either ends the crawl with an empty queue, or hands out a URL
/// that was never visited before, within the depth bound, marking it
/// visited at once and shrinking the queue — so a stylesheet importing
/// itself, directly or through another, is fetched at most once.
pub proof fn lemma_crawl_cycle_safe(visited: Seq<Seq<char>>, pending: Seq<(Seq<char>, usize)>)
    ensures
        ({
            let s = spec_next(visited, pending);
            &&& s.0 matches Some(e) ==> !visited.contains(e.0) && s.1 == visited.push(e.0) && e.1
                <= MAX_IMPORT_DEPTH && s.2.len() < pending.len()
            &&& s.0 is None ==> s.1 == visited && s.2.len() == 0
        }),
    decreases pending.len(),
{
    if pending.len() > 0 {
        let entry = pending[0];
        let rest = pending.subrange(1, pending.len() as int);
        if entry.1 > MAX_IMPORT_DEPTH || visited.contains(entry.0) {
            lemma_crawl_cycle_safe(visited, rest);
        }
    }
}

/// Closes the crawl: the gathered records, URL-deduplicated (first
/// occurrence kept) and put in canonical order.
pub fn crawl_finish(state: CrawlState) -> (r: Vec<FontInfo>)
    ensures
        spec_fonts(r@) == spec_sort_fonts(spec_dedupe(state@.fonts)),
{
    let CrawlState { visited: _, pending: _, fonts: mut collected, referer: _ } = state;
    dedupe_fonts(&mut collected);
    sort_fonts(&mut collected);
    collected
}

} // verus!
