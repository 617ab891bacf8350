use vstd::prelude::*;
use vstd::string::StringExecFns;
use crate::text::{has_substring, str_contains};
use crate::protocol::McpError;
use crate::chunker::DocumentChunk;
use crate::text::string_of;
use crate::types::{ContentType, Document, DocumentMetadata};

verus! {

/// How far a crawl follows links from its start page.
#[derive(Debug, Clone, Copy, PartialEq, Eq, Structural)]
pub enum CrawlMode {
    /// Only the start page.
    SinglePage,
    /// The start page and the pages it links to.
    Section,
    /// Every page reachable within the depth limit.
    FullDocs,
}

/// The kind of documentation a crawl looks for; advisory.
#[derive(Debug, Clone, Copy, PartialEq, Eq, Structural)]
pub enum DocumentationFocus {
    ApiReference,
    Examples,
    Changelog,
    QuickStart,
    All,
}

/// The mode named by `s`: `single`, `section` or `full`; any other name
/// is invalid.
pub fn parse_crawl_mode(s: &str) -> (r: Result<CrawlMode, McpError>)
    ensures
        s@ == "single"@ ==> r == Ok::<CrawlMode, McpError>(CrawlMode::SinglePage),
        s@ == "section"@ ==> r == Ok::<CrawlMode, McpError>(CrawlMode::Section),
        s@ == "full"@ ==> r == Ok::<CrawlMode, McpError>(CrawlMode::FullDocs),
        s@ != "single"@ && s@ != "section"@ && s@ != "full"@ ==> r matches Err(McpError::InvalidParams(_)),
{
    proof {
        reveal_strlit("single");
        reveal_strlit("section");
        reveal_strlit("full");
        assert("single"@[1] == 'i' && "section"@[1] == 'e' && "full"@[0] == 'f' && "single"@[0] == 's' && "section"@[0] == 's');
        assert("single"@ != "section"@ && "single"@ != "full"@ && "section"@ != "full"@);
    }
    let v = crate::text::chars_of(s);
    if eq_literal(&v, "single") {
        Ok(CrawlMode::SinglePage)
    } else if eq_literal(&v, "section") {
        Ok(CrawlMode::Section)
    } else if eq_literal(&v, "full") {
        Ok(CrawlMode::FullDocs)
    } else {
        Err(McpError::InvalidParams(String::from_str("mode must be single, section or full")))
    }
}

/// The focus named by `s`: `api`, `examples`, `changelog`, `quickstart` or
/// `all`; any other name is invalid.
pub fn parse_focus(s: &str) -> (r: Result<DocumentationFocus, McpError>)
    ensures
        s@ == "api"@ ==> r == Ok::<DocumentationFocus, McpError>(DocumentationFocus::ApiReference),
        s@ == "examples"@ ==> r == Ok::<DocumentationFocus, McpError>(DocumentationFocus::Examples),
        s@ == "changelog"@ ==> r == Ok::<DocumentationFocus, McpError>(DocumentationFocus::Changelog),
        s@ == "quickstart"@ ==> r == Ok::<DocumentationFocus, McpError>(DocumentationFocus::QuickStart),
        s@ == "all"@ ==> r == Ok::<DocumentationFocus, McpError>(DocumentationFocus::All),
        s@ != "api"@ && s@ != "examples"@ && s@ != "changelog"@ && s@ != "quickstart"@ && s@ != "all"@
            ==> r matches Err(McpError::InvalidParams(_)),
{
    proof {
        reveal_strlit("api");
        reveal_strlit("examples");
        reveal_strlit("changelog");
        reveal_strlit("quickstart");
        reveal_strlit("all");
        assert("api"@[0] == 'a' && "api"@[1] == 'p' && "all"@[1] == 'l' && "examples"@[0] == 'e'
            && "changelog"@[0] == 'c' && "quickstart"@[0] == 'q' && "all"@[0] == 'a');
        assert("api"@ != "examples"@ && "api"@ != "changelog"@ && "api"@ != "quickstart"@ && "api"@ != "all"@);
        assert("examples"@ != "changelog"@ && "examples"@ != "quickstart"@ && "examples"@ != "all"@);
        assert("changelog"@ != "quickstart"@ && "changelog"@ != "all"@ && "quickstart"@ != "all"@);
    }
    let v = crate::text::chars_of(s);
    if eq_literal(&v, "api") {
        Ok(DocumentationFocus::ApiReference)
    } else if eq_literal(&v, "examples") {
        Ok(DocumentationFocus::Examples)
    } else if eq_literal(&v, "changelog") {
        Ok(DocumentationFocus::Changelog)
    } else if eq_literal(&v, "quickstart") {
        Ok(DocumentationFocus::QuickStart)
    } else if eq_literal(&v, "all") {
        Ok(DocumentationFocus::All)
    } else {
        Err(McpError::InvalidParams(String::from_str("focus must be api, examples, changelog, quickstart or all")))
    }
}

pub(crate) fn eq_literal(v: &Vec<char>, lit: &str) -> (r: bool)
    ensures
        r == (v@ == lit@),
{
    let w = crate::text::chars_of(lit);
    if v.len() != w.len() {
        return false;
    }
    let mut i: usize = 0;
    while i < v.len()
        invariant
            v@.len() == w@.len(),
            w@ == lit@,
            i <= v@.len(),
            forall|k: int| 0 <= k < i ==> v@[k] == w@[k],
        decreases v@.len() - i,
    {
        if v[i] != w[i] {
            return false;
        }
        i = i + 1;
    }
    assert(v@ =~= w@);
    true
}

/// Url fragments that make a page worth crawling, and ones that rule it out.
#[derive(Debug, Clone)]
pub struct UrlPatterns {
    pub accept: Vec<String>,
    pub exclude: Vec<String>,
}

impl UrlPatterns {
    /// Documentation paths included; blogs, forums and code-review pages
    /// excluded.
    pub fn default() -> (r: UrlPatterns)
        ensures
            r.accept@.len() == 8,
            r.accept@[0]@ == "/docs/"@,
            r.accept@[1]@ == "/api/"@,
            r.accept@[2]@ == "/guide/"@,
            r.accept@[3]@ == "/reference/"@,
            r.accept@[4]@ == "/tutorial/"@,
            r.accept@[5]@ == "/manual/"@,
            r.accept@[6]@ == "/changelog/"@,
            r.accept@[7]@ == "/whatsnew/"@,
            r.exclude@.len() == 7,
            r.exclude@[0]@ == "/blog/"@,
            r.exclude@[1]@ == "/forum/"@,
            r.exclude@[2]@ == "/community/"@,
            r.exclude@[3]@ == "/discuss/"@,
            r.exclude@[4]@ == "/issues/"@,
            r.exclude@[5]@ == "/pull/"@,
            r.exclude@[6]@ == "/commits/"@,
    {
        let accept = vec![
            String::from_str("/docs/"),
            String::from_str("/api/"),
            String::from_str("/guide/"),
            String::from_str("/reference/"),
            String::from_str("/tutorial/"),
            String::from_str("/manual/"),
            String::from_str("/changelog/"),
            String::from_str("/whatsnew/"),
        ];
        let exclude = vec![
            String::from_str("/blog/"),
            String::from_str("/forum/"),
            String::from_str("/community/"),
            String::from_str("/discuss/"),
            String::from_str("/issues/"),
            String::from_str("/pull/"),
            String::from_str("/commits/"),
        ];
        UrlPatterns { accept, exclude }
    }
}

/// Settings of one crawl.
#[derive(Debug, Clone)]
pub struct CrawlConfig {
    pub start_url: String,
    pub mode: CrawlMode,
    pub focus: DocumentationFocus,
    pub max_pages: usize,
    pub max_depth: usize,
    /// Requests per second the rate limiter allows.
    pub concurrent_requests: usize,
    /// Pause after each request, in milliseconds.
    pub delay_ms: u64,
    pub user_agent: String,
    /// Hosts a crawl may visit; empty allows every host.
    pub allowed_domains: Vec<String>,
    pub url_patterns: UrlPatterns,
}

impl CrawlConfig {
    /// A single-page crawl of nothing yet, at most 100 pages and 5 links
    /// deep, 2 requests a second, half a second apart, any host.
    pub fn default() -> (r: CrawlConfig)
        ensures
            r.start_url@.len() == 0,
            r.mode == CrawlMode::SinglePage,
            r.focus == DocumentationFocus::All,
            r.max_pages == 100,
            r.max_depth == 5,
            r.concurrent_requests == 2,
            r.delay_ms == 500,
            r.user_agent@ == "CodeRAG/0.1.0 (AI Documentation Assistant)"@,
            r.allowed_domains@.len() == 0,
            r.url_patterns.accept@.len() == 8,
            r.url_patterns.exclude@.len() == 7,
    {
        CrawlConfig {
            start_url: String::new(),
            mode: CrawlMode::SinglePage,
            focus: DocumentationFocus::All,
            max_pages: 100,
            max_depth: 5,
            concurrent_requests: 2,
            delay_ms: 500,
            user_agent: String::from_str("CodeRAG/0.1.0 (AI Documentation Assistant)"),
            allowed_domains: Vec::new(),
            url_patterns: UrlPatterns::default(),
        }
    }
}

/// Whether links are followed from a page at `depth`.
pub open spec fn spec_follows(mode: CrawlMode, depth: usize, max_depth: usize) -> bool {
    match mode {
        CrawlMode::SinglePage => false,
        CrawlMode::Section => depth == 0,
        CrawlMode::FullDocs => depth < max_depth,
    }
}

pub fn should_follow_links(mode: CrawlMode, depth: usize, max_depth: usize) -> (r: bool)
    ensures
        r == spec_follows(mode, depth, max_depth),
{
    match mode {
        CrawlMode::SinglePage => false,
        CrawlMode::Section => depth == 0,
        CrawlMode::FullDocs => depth < max_depth,
    }
}

/// What the `url` crate parses out of `s` as its host, when `s` parses as
/// an absolute url with a host.
pub uninterp spec fn parsed_host(s: Seq<char>) -> Option<Seq<char>>;

/// Relies on `url::Url::parse` and `Url::host_str`: the host of the url,
/// if it parses and has one; this depends on the text alone.
#[verifier::external_body]
fn url_host(s: &str) -> (r: Option<String>)
    ensures
        r is Some == parsed_host(s@) is Some,
        r is Some ==> parsed_host(s@) == Some(r->0@),
{
    match url::Url::parse(s) {
        Ok(u) => u.host_str().map(|h| h.to_string()),
        Err(_) => None,
    }
}

/// What the `url` crate makes of the link `href` found on the page `base`:
/// the absolute url it points to, if both parse.
pub uninterp spec fn joined_url(base: Seq<char>, href: Seq<char>) -> Option<Seq<char>>;

/// Relies on `url::Url::parse` and `Url::join`: resolves a link against
/// the url of the page it was found on; this depends on the texts alone.
#[verifier::external_body]
fn resolve_link(base: &str, href: &str) -> (r: Option<String>)
    ensures
        r is Some == joined_url(base@, href@) is Some,
        r is Some ==> joined_url(base@, href@) == Some(r->0@),
{
    match url::Url::parse(base) {
        Ok(b) => match b.join(href) {
            Ok(u) => Some(u.to_string()),
            Err(_) => None,
        },
        Err(_) => None,
    }
}

/// Whether some pattern of `ps` occurs in `url`.
pub open spec fn matches_any(ps: Seq<String>, url: Seq<char>) -> bool {
    exists|i: int| 0 <= i < ps.len() && has_substring(url, (#[trigger] ps[i])@)
}

/// Whether some string of `v` equals `s`.
pub open spec fn holds_text(v: Seq<String>, s: Seq<char>) -> bool {
    exists|i: int| 0 <= i < v.len() && (#[trigger] v[i])@ == s
}

fn any_pattern(ps: &Vec<String>, url: &str) -> (r: bool)
    ensures
        r == matches_any(ps@, url@),
{
    let mut i: usize = 0;
    while i < ps.len()
        invariant
            i <= ps@.len(),
            forall|k: int| 0 <= k < i ==> !has_substring(url@, (#[trigger] ps@[k])@),
        decreases ps@.len() - i,
    {
        if str_contains(url, ps[i].as_str()) {
            return true;
        }
        i = i + 1;
    }
    false
}

/// Whether some string of `v` equals `s`.
pub fn contains_text(v: &Vec<String>, s: &str) -> (r: bool)
    ensures
        r == holds_text(v@, s@),
{
    let target = String::from_str(s);
    let mut i: usize = 0;
    while i < v.len()
        invariant
            i <= v@.len(),
            target@ == s@,
            forall|k: int| 0 <= k < i ==> (#[trigger] v@[k])@ != s@,
        decreases v@.len() - i,
    {
        if v[i] == target {
            return true;
        }
        i = i + 1;
    }
    false
}

/// Whether a crawl with `config` visits `url`: no exclude pattern occurs in
/// it, some accept pattern does (when there are any), and it has a host,
/// one of the allowed ones when any are given.
pub open spec fn spec_should_crawl(config: CrawlConfig, url: Seq<char>) -> bool {
    &&& !matches_any(config.url_patterns.exclude@, url)
    &&& (config.url_patterns.accept@.len() == 0 || matches_any(config.url_patterns.accept@, url))
    &&& parsed_host(url) is Some
    &&& (config.allowed_domains@.len() == 0 || holds_text(config.allowed_domains@, parsed_host(url)->0))
}

pub fn should_crawl_url(config: &CrawlConfig, url: &str) -> (r: bool)
    ensures
        r == spec_should_crawl(*config, url@),
{
    if any_pattern(&config.url_patterns.exclude, url) {
        return false;
    }
    if config.url_patterns.accept.len() > 0 && !any_pattern(&config.url_patterns.accept, url) {
        return false;
    }
    match url_host(url) {
        Some(host) => config.allowed_domains.len() == 0 || contains_text(&config.allowed_domains, host.as_str()),
        None => false,
    }
}

/// Descriptive fields of a crawled page.
#[derive(Debug, Clone)]
pub struct CrawlMetadata {
    /// When the page was fetched, as an RFC 3339 timestamp.
    pub crawled_at: String,
    pub content_type: String,
    pub language: Option<String>,
    pub framework: Option<String>,
    pub version: Option<String>,
}

/// A fetched page with its passages.
#[derive(Debug, Clone)]
pub struct CrawlResult {
    pub url: String,
    pub title: String,
    pub content: String,
    pub chunks: Vec<crate::chunker::DocumentChunk>,
    pub metadata: CrawlMetadata,
}

/// The url of a queued pair.
pub open spec fn pair_url(p: (String, usize)) -> String {
    p.0
}

/// The depth of a queued pair.
pub open spec fn pair_depth(p: (String, usize)) -> usize {
    p.1
}

/// Counters of a running crawl.
#[derive(Debug, Clone)]
pub struct CrawlProgress {
    pub pages_crawled: usize,
    pub pages_queued: usize,
    pub pages_failed: usize,
    pub current_url: Option<String>,
}

/// Whether the queued `item` is passed over: deeper than the crawl goes,
/// or already handed out.
pub open spec fn passed_over(config: CrawlConfig, visited: Seq<String>, item: (String, usize)) -> bool {
    item.1 > config.max_depth || holds_text(visited, item.0@)
}

/// The urls and depths of queued pairs.
pub open spec fn pending_view(p: Seq<(String, usize)>) -> Seq<(Seq<char>, usize)> {
    p.map_values(|x: (String, usize)| (x.0@, x.1))
}

/// Queueing, in turn, the links `links` found on the page `base` at depth
/// `depth`: each link that resolves to a url the crawl may visit, not
/// handed out (`visited`) nor waiting in `q`, is added one level deeper.
pub open spec fn queue_links(
    config: CrawlConfig,
    visited: Seq<String>,
    base: Seq<char>,
    depth: int,
    q: Seq<(Seq<char>, usize)>,
    links: Seq<String>,
) -> Seq<(Seq<char>, usize)>
    decreases links.len(),
{
    if links.len() == 0 {
        q
    } else {
        let q1 = queue_links(config, visited, base, depth, q, links.drop_last());
        match joined_url(base, links.last()@) {
            Some(u) => if spec_should_crawl(config, u) && !holds_text(visited, u)
                && !(exists|i: int| 0 <= i < q1.len() && (#[trigger] q1[i]).0 == u) {
                q1.push((u, (depth + 1) as usize))
            } else {
                q1
            },
            None => q1,
        }
    }
}

/// Whether the url `u` is one of the queued ones from position `from` on.
pub open spec fn queued_from(q: Seq<(String, usize)>, from: int, u: Seq<char>) -> bool {
    exists|i: int| from <= i < q.len() && (#[trigger] q[i]).0@ == u
}

/// The decisions of a breadth-first crawl: which url to fetch next, and
/// what to queue after a page was fetched. The caller fetches each url
/// that `next_url` hands out and reports the outcome with
/// `record_success` or `record_failure`.
pub struct CrawlFrontier {
    config: CrawlConfig,
    queue: Vec<(String, usize)>,
    head: usize,
    visited: Vec<String>,
    crawled: Vec<String>,
    current: Option<(String, usize)>,
    failed: usize,
}

impl CrawlFrontier {
    pub closed spec fn spec_config(&self) -> CrawlConfig {
        self.config
    }

    /// The urls fetched successfully, in order.
    pub closed spec fn spec_crawled(&self) -> Seq<String> {
        self.crawled@
    }

    /// The urls handed out so far.
    pub closed spec fn spec_visited(&self) -> Seq<String> {
        self.visited@
    }

    /// The url handed out and not yet reported, with its depth.
    pub closed spec fn spec_current(&self) -> Option<(String, usize)> {
        self.current
    }

    pub closed spec fn spec_failed(&self) -> nat {
        self.failed as nat
    }

    /// The urls still waiting, with their depths, first first.
    pub closed spec fn spec_pending(&self) -> Seq<(String, usize)> {
        self.queue@.subrange(self.head as int, self.queue@.len() as int)
    }

    /// No url is fetched twice; each fetched url was handed out; at most
    /// `max_pages` are fetched.
    pub open spec fn wf(&self) -> bool {
        &&& forall|a: int, b: int| 0 <= a < b < self.spec_crawled().len()
            ==> (#[trigger] self.spec_crawled()[a])@ != (#[trigger] self.spec_crawled()[b])@
        &&& forall|a: int| 0 <= a < self.spec_crawled().len()
            ==> holds_text(self.spec_visited(), (#[trigger] self.spec_crawled()[a])@)
        &&& forall|a: int, b: int| 0 <= a < b < self.spec_visited().len()
            ==> (#[trigger] self.spec_visited()[a])@ != (#[trigger] self.spec_visited()[b])@
        &&& self.spec_crawled().len() <= self.spec_config().max_pages
        &&& match self.spec_current() {
            Some(c) => holds_text(self.spec_visited(), c.0@)
                && !holds_text(self.spec_crawled(), c.0@)
                && self.spec_crawled().len() < self.spec_config().max_pages,
            None => true,
        }
    }

    pub closed spec fn inner_wf(&self) -> bool {
        &&& self.head <= self.queue@.len()
    }

    /// A crawl that starts with `config.start_url` at depth 0.
    pub fn new(config: CrawlConfig) -> (r: CrawlFrontier)
        ensures
            r.wf(),
            r.inner_wf(),
            r.spec_config() == config,
            r.spec_pending().len() == 1,
            r.spec_pending()[0].0@ == config.start_url@,
            r.spec_pending()[0].1 == 0,
            r.spec_crawled().len() == 0,
            r.spec_visited().len() == 0,
            r.spec_current() is None,
            r.spec_failed() == 0,
    {
        let start = config.start_url.clone();
        let queue = vec![(start, 0usize)];
        let r = CrawlFrontier { config, queue, head: 0, visited: Vec::new(), crawled: Vec::new(), current: None, failed: 0 };
        assert(r.spec_pending() =~= r.queue@);
        r
    }

    /// The next url to fetch, with its depth: the first waiting url not yet
    /// handed out and no deeper than `max_depth`, skipping the others.
    /// Nothing when `max_pages` urls were fetched or none is left; the
    /// crawl is then over.
    pub fn next_url(&mut self) -> (r: Option<(String, usize)>)
        requires
            old(self).wf(),
            old(self).inner_wf(),
            old(self).spec_current() is None,
        ensures
            final(self).wf(),
            final(self).inner_wf(),
            final(self).spec_config() == old(self).spec_config(),
            final(self).spec_crawled() == old(self).spec_crawled(),
            final(self).spec_failed() == old(self).spec_failed(),
            old(self).spec_crawled().len() >= old(self).spec_config().max_pages ==> r is None
                && final(self).spec_pending() == old(self).spec_pending()
                && final(self).spec_visited() == old(self).spec_visited(),
            r is None ==> final(self).spec_current() is None,
            r is None && old(self).spec_crawled().len() < old(self).spec_config().max_pages ==> {
                &&& final(self).spec_pending().len() == 0
                &&& final(self).spec_visited() == old(self).spec_visited()
                &&& forall|i: int| 0 <= i < old(self).spec_pending().len()
                    ==> passed_over(old(self).spec_config(), old(self).spec_visited(), #[trigger] old(self).spec_pending()[i])
            },
            r matches Some(p) ==> {
                &&& final(self).spec_current() == Some(p)
                &&& p.1 <= old(self).spec_config().max_depth
                &&& !holds_text(old(self).spec_visited(), p.0@)
                &&& final(self).spec_visited() == old(self).spec_visited().push(p.0)
                &&& old(self).spec_crawled().len() < old(self).spec_config().max_pages
                &&& exists|j: int| 0 <= j < old(self).spec_pending().len()
                    && (#[trigger] old(self).spec_pending()[j]).0@ == p.0@
                    && old(self).spec_pending()[j].1 == p.1
                    && (forall|i: int| 0 <= i < j
                        ==> passed_over(old(self).spec_config(), old(self).spec_visited(), #[trigger] old(self).spec_pending()[i]))
                    && final(self).spec_pending() == old(self).spec_pending().subrange(j + 1, old(self).spec_pending().len() as int)
            },
    {
        if self.crawled.len() >= self.config.max_pages {
            return None;
        }
        while self.head < self.queue.len()
            invariant
                self.wf(),
                self.inner_wf(),
                self.current is None,
                self.config == old(self).config,
                self.crawled@ == old(self).crawled@,
                self.visited@ == old(self).visited@,
                self.spec_crawled() == old(self).spec_crawled(),
                self.spec_visited() == old(self).spec_visited(),
                self.failed == old(self).failed,
                self.crawled@.len() < self.config.max_pages,
                self.queue@ == old(self).queue@,
                old(self).head <= self.head,
                forall|k: int| old(self).head <= k < self.head
                    ==> passed_over(self.config, self.visited@, #[trigger] self.queue@[k]),
            decreases self.queue@.len() - self.head,
        {
            let ghost h = self.head as int;
            let url = self.queue[self.head].0.clone();
            let depth = self.queue[self.head].1;
            self.head = self.head + 1;
            if depth <= self.config.max_depth && !contains_text(&self.visited, url.as_str()) {
                let ghost old_visited = self.spec_visited();
                let ghost crawled = self.spec_crawled();
                assert(!holds_text(old_visited, url@));
                let marker = url.clone();
                self.visited.push(marker);
                let handed = url.clone();
                self.current = Some((url, depth));
                proof {
                    let vis = self.spec_visited();
                    assert(vis == old_visited.push(handed));
                    assert(holds_text(vis, handed@)) by {
                        assert(vis[vis.len() - 1]@ == handed@);
                    }
                    assert forall|a: int| 0 <= a < crawled.len()
                        implies holds_text(vis, (#[trigger] crawled[a])@) by {
                        assert(holds_text(old_visited, crawled[a]@));
                        let w = choose|w: int| 0 <= w < old_visited.len() && (#[trigger] old_visited[w])@ == crawled[a]@;
                        assert(vis[w] == old_visited[w]);
                    }
                    assert(!holds_text(crawled, handed@)) by {
                        if holds_text(crawled, handed@) {
                            let w = choose|w: int| 0 <= w < crawled.len() && (#[trigger] crawled[w])@ == handed@;
                            assert(holds_text(old_visited, crawled[w]@));
                        }
                    }
                    assert forall|a: int, b: int| 0 <= a < b < vis.len()
                        implies (#[trigger] vis[a])@ != (#[trigger] vis[b])@ by {
                        if b == vis.len() - 1 {
                            assert(vis[a] == old_visited[a]);
                            assert(vis[b]@ == url@);
                            assert(old_visited[a]@ != url@);
                        } else {
                            assert(vis[a] == old_visited[a] && vis[b] == old_visited[b]);
                        }
                    }
                }
                proof {
                    let j = h - old(self).head;
                    let op = old(self).spec_pending();
                    assert(op[j] == self.queue@[h]);
                    assert forall|i: int| 0 <= i < j implies passed_over(old(self).spec_config(), old(self).spec_visited(), #[trigger] op[i]) by {
                        assert(op[i] == self.queue@[old(self).head + i]);
                    }
                    assert(self.spec_pending() =~= op.subrange(j + 1, op.len() as int));
                }
                return Some((handed, depth));
            }
            proof {
                assert(passed_over(self.config, self.visited@, self.queue@[h]));
            }
        }
        proof {
            let op = old(self).spec_pending();
            assert forall|i: int| 0 <= i < op.len() implies passed_over(old(self).spec_config(), old(self).spec_visited(), #[trigger] op[i]) by {
                assert(op[i] == self.queue@[old(self).head + i]);
            }
        }
        None
    }

    /// The handed-out url could not be fetched or processed.
    pub fn record_failure(&mut self)
        requires
            old(self).wf(),
            old(self).inner_wf(),
        ensures
            final(self).wf(),
            final(self).inner_wf(),
            final(self).spec_config() == old(self).spec_config(),
            final(self).spec_crawled() == old(self).spec_crawled(),
            final(self).spec_visited() == old(self).spec_visited(),
            final(self).spec_pending() == old(self).spec_pending(),
            final(self).spec_current() is None,
            final(self).spec_failed() == if old(self).spec_failed() < usize::MAX {
                old(self).spec_failed() + 1
            } else {
                old(self).spec_failed()
            },
    {
        self.current = None;
        self.failed = self.failed.saturating_add(1);
        assert(self.spec_crawled() == old(self).spec_crawled());
        assert(self.spec_visited() == old(self).spec_visited());
    }

    /// The handed-out url was fetched; `links` are the targets of the links
    /// on the page, as written there. When links are followed from the
    /// page's depth, each resolved link that the crawl may visit, not yet
    /// handed out nor waiting, is queued one level deeper.
    pub fn record_success(&mut self, links: &Vec<String>)
        requires
            old(self).wf(),
            old(self).inner_wf(),
            old(self).spec_current() is Some,
        ensures
            final(self).wf(),
            final(self).inner_wf(),
            final(self).spec_config() == old(self).spec_config(),
            final(self).spec_crawled() == old(self).spec_crawled().push(pair_url(old(self).spec_current()->0)),
            final(self).spec_visited() == old(self).spec_visited(),
            final(self).spec_current() is None,
            final(self).spec_failed() == old(self).spec_failed(),
            final(self).spec_pending().len() >= old(self).spec_pending().len(),
            final(self).spec_pending().subrange(0, old(self).spec_pending().len() as int) == old(self).spec_pending(),
            forall|i: int| old(self).spec_pending().len() <= i < final(self).spec_pending().len() ==> {
                &&& spec_should_crawl(old(self).spec_config(), (#[trigger] final(self).spec_pending()[i]).0@)
                &&& final(self).spec_pending()[i].1 == pair_depth(old(self).spec_current()->0) + 1
                &&& !holds_text(old(self).spec_visited(), final(self).spec_pending()[i].0@)
            },
            !spec_follows(old(self).spec_config().mode, pair_depth(old(self).spec_current()->0), old(self).spec_config().max_depth)
                ==> final(self).spec_pending() == old(self).spec_pending(),
            spec_follows(old(self).spec_config().mode, pair_depth(old(self).spec_current()->0), old(self).spec_config().max_depth)
                ==> pending_view(final(self).spec_pending()) == queue_links(old(self).spec_config(), old(self).spec_visited(),
                    pair_url(old(self).spec_current()->0)@, pair_depth(old(self).spec_current()->0) as int,
                    pending_view(old(self).spec_pending()), links@),
    {
        let (url, depth) = match self.current.take() {
            Some(c) => c,
            None => { return; },
        };
        let ghost old_crawled = self.crawled@;
        let page = url.clone();
        self.crawled.push(url);
        assert forall|a: int, b: int| 0 <= a < b < self.crawled@.len()
            implies (#[trigger] self.crawled@[a])@ != (#[trigger] self.crawled@[b])@ by {
            assert(self.crawled@[a] == old_crawled[a]);
            if b < old_crawled.len() {
                assert(self.crawled@[b] == old_crawled[b]);
            }
        }
        assert forall|a: int| 0 <= a < self.crawled@.len()
            implies holds_text(self.visited@, (#[trigger] self.crawled@[a])@) by {
            if a < old_crawled.len() {
                assert(self.crawled@[a] == old_crawled[a]);
            }
        }
        if !should_follow_links(self.config.mode, depth, self.config.max_depth) {
            return;
        }
        let ghost old_queue = self.queue@;
        let ghost mid_crawled = self.spec_crawled();
        let mut i: usize = 0;
        while i < links.len()
            invariant
                self.wf(),
                self.inner_wf(),
                self.current is None,
                self.head == old(self).head,
                self.config == old(self).config,
                self.crawled@ == old_crawled.push(page),
                self.visited@ == old(self).visited@,
                self.spec_crawled() == mid_crawled,
                self.spec_visited() == old(self).spec_visited(),
                self.failed == old(self).failed,
                depth == pair_depth(old(self).current->0),
                depth < usize::MAX,
                self.queue@.len() >= old_queue.len(),
                self.queue@.subrange(0, old_queue.len() as int) == old_queue,
                old_queue == old(self).queue@,
                forall|k: int| old_queue.len() <= k < self.queue@.len() ==> {
                    &&& spec_should_crawl(self.config, (#[trigger] self.queue@[k]).0@)
                    &&& self.queue@[k].1 == depth + 1
                    &&& !holds_text(self.visited@, self.queue@[k].0@)
                },
                i <= links@.len(),
                self.head <= old_queue.len(),
                page@ == pair_url(old(self).current->0)@,
                pending_view(self.queue@.subrange(self.head as int, self.queue@.len() as int))
                    == queue_links(self.config, self.visited@, page@, depth as int,
                        pending_view(old_queue.subrange(self.head as int, old_queue.len() as int)), links@.take(i as int)),
            decreases links@.len() - i,
        {
            assert(links@.take(i + 1).drop_last() == links@.take(i as int));
            assert(links@.take(i + 1).last() == links@[i as int]);
            let ghost pv0 = pending_view(self.queue@.subrange(self.head as int, self.queue@.len() as int));
            match resolve_link(page.as_str(), links[i].as_str()) {
                Some(target) => {
                    let ok = should_crawl_url(&self.config, target.as_str());
                    let seen = contains_text(&self.visited, target.as_str());
                    let waiting = self.is_waiting(&target);
                    proof {
                        if waiting {
                            let k = choose|k: int| self.head <= k < self.queue@.len() && (#[trigger] self.queue@[k]).0@ == target@;
                            assert(pv0[k - self.head].0 == target@);
                        }
                        if exists|m: int| 0 <= m < pv0.len() && (#[trigger] pv0[m]).0 == target@ {
                            let m = choose|m: int| 0 <= m < pv0.len() && (#[trigger] pv0[m]).0 == target@;
                            assert(self.queue@[self.head + m].0@ == target@);
                        }
                    }
                    if ok && !seen && !waiting {
                        let ghost before = self.queue@;
                        let ghost tv = target@;
                        proof {
                            assert forall|m: int| 0 <= m < pv0.len() implies (#[trigger] pv0[m]).0 != tv by {
                                assert(pv0[m].0 == self.queue@[self.head + m].0@);
                            }
                        }
                        self.queue.push((target, depth + 1));
                        assert(pending_view(self.queue@.subrange(self.head as int, self.queue@.len() as int))
                            =~= pv0.push((tv, (depth + 1) as usize)));
                        assert(self.queue@.subrange(0, old_queue.len() as int) =~= before.subrange(0, old_queue.len() as int));
                        assert forall|k: int| old_queue.len() <= k < self.queue@.len() implies {
                            &&& spec_should_crawl(self.config, (#[trigger] self.queue@[k]).0@)
                            &&& self.queue@[k].1 == depth + 1
                            &&& !holds_text(self.visited@, self.queue@[k].0@)
                        } by {
                            if k < before.len() {
                                assert(self.queue@[k] == before[k]);
                            }
                        }
                    }
                },
                None => {},
            }
            i = i + 1;
        }
        assert(links@.take(links@.len() as int) == links@);
        proof {
            let h = self.head as int;
            let on = old(self).queue@.len() as int;
            assert(old(self).spec_pending() =~= old_queue.subrange(h, on));
            assert(self.spec_pending().subrange(0, on - h) =~= old(self).spec_pending());
            assert forall|k: int| on - h <= k < self.spec_pending().len() implies {
                &&& spec_should_crawl(old(self).spec_config(), (#[trigger] self.spec_pending()[k]).0@)
                &&& self.spec_pending()[k].1 == pair_depth(old(self).spec_current()->0) + 1
                &&& !holds_text(old(self).spec_visited(), self.spec_pending()[k].0@)
            } by {
                assert(self.spec_pending()[k] == self.queue@[k + h]);
            }
        }
    }

    /// Whether `u` is waiting in the queue.
    fn is_waiting(&self, u: &String) -> (r: bool)
        requires
            self.inner_wf(),
        ensures
            r == queued_from(self.queue@, self.head as int, u@),
    {
        let mut i = self.head;
        while i < self.queue.len()
            invariant
                self.head <= i <= self.queue@.len(),
                forall|k: int| self.head <= k < i ==> (#[trigger] self.queue@[k]).0@ != u@,
            decreases self.queue@.len() - i,
        {
            if self.queue[i].0 == *u {
                return true;
            }
            i = i + 1;
        }
        false
    }

    /// The urls fetched successfully, in order.
    pub fn crawled_urls(&self) -> (r: &Vec<String>)
        ensures
            r@ == self.spec_crawled(),
    {
        &self.crawled
    }

    /// The crawl's counters.
    pub fn progress(&self) -> (r: CrawlProgress)
        requires
            self.inner_wf(),
        ensures
            r.pages_crawled == self.spec_crawled().len(),
            r.pages_queued == self.spec_pending().len(),
            r.pages_failed == self.spec_failed(),
            r.current_url matches Some(u) ==> self.spec_current() matches Some(c) && u@ == c.0@,
            r.current_url is None ==> self.spec_current() is None,
    {
        let current_url = match &self.current {
            Some(c) => Some(c.0.clone()),
            None => None,
        };
        CrawlProgress {
            pages_crawled: self.crawled.len(),
            pages_queued: self.queue.len() - self.head,
            pages_failed: self.failed,
            current_url,
        }
    }
}

/// Paces the requests of a crawl: a request starts no sooner than
/// `delay_ms` after the previous one finished, nor sooner than a second
/// divided by `concurrent_requests` after the previous one started.
pub struct Pacer {
    delay_ms: u64,
    min_gap_ms: u64,
    last_start: Option<u64>,
    last_finish: Option<u64>,
}

/// The earliest moment the next request may start.
pub open spec fn earliest_start(delay_ms: u64, min_gap_ms: u64, last_start: Option<u64>, last_finish: Option<u64>) -> int {
    let a: int = match last_finish { Some(f) => f + delay_ms, None => 0 };
    let b: int = match last_start { Some(s) => s + min_gap_ms, None => 0 };
    if a >= b { a } else { b }
}

impl Pacer {
    pub closed spec fn spec_delay(&self) -> u64 {
        self.delay_ms
    }

    pub closed spec fn spec_min_gap(&self) -> u64 {
        self.min_gap_ms
    }

    pub closed spec fn spec_last_start(&self) -> Option<u64> {
        self.last_start
    }

    pub closed spec fn spec_last_finish(&self) -> Option<u64> {
        self.last_finish
    }

    /// A pacer for `delay_ms` between requests and `concurrent_requests`
    /// requests a second (one, when zero is given).
    pub fn new(delay_ms: u64, concurrent_requests: usize) -> (r: Pacer)
        ensures
            r.spec_delay() == delay_ms,
            r.spec_min_gap() == 1000int / (if concurrent_requests == 0 { 1int } else { concurrent_requests as int }),
            r.spec_last_start() is None,
            r.spec_last_finish() is None,
    {
        let per_second: u64 = if concurrent_requests == 0 {
            1
        } else if concurrent_requests as u64 > 1000 {
            1001
        } else {
            concurrent_requests as u64
        };
        let min_gap_ms = 1000 / per_second;
        proof {
            if concurrent_requests as u64 > 1000 {
                assert(1000int / (concurrent_requests as int) == 0) by (nonlinear_arith)
                    requires concurrent_requests as int > 1000;
            }
        }
        Pacer { delay_ms, min_gap_ms, last_start: None, last_finish: None }
    }

    /// Milliseconds to wait at `now_ms` before the next request may start
    /// (all of them, when that moment lies beyond the clock's range).
    pub fn wait_before_start(&self, now_ms: u64) -> (r: u64)
        ensures
            ({
                let e = earliest_start(self.spec_delay(), self.spec_min_gap(), self.spec_last_start(), self.spec_last_finish());
                if e > u64::MAX { r == u64::MAX } else if e > now_ms { r == e - now_ms } else { r == 0 }
            }),
    {
        let a: Option<u64> = match self.last_finish {
            Some(f) => f.checked_add(self.delay_ms),
            None => Some(0),
        };
        let b: Option<u64> = match self.last_start {
            Some(s) => s.checked_add(self.min_gap_ms),
            None => Some(0),
        };
        match (a, b) {
            (Some(a), Some(b)) => {
                let e = if a >= b { a } else { b };
                if e > now_ms { e - now_ms } else { 0 }
            },
            _ => u64::MAX,
        }
    }

    /// A request starts at `now_ms`.
    pub fn record_start(&mut self, now_ms: u64)
        ensures
            final(self).spec_last_start() == Some(now_ms),
            final(self).spec_last_finish() == old(self).spec_last_finish(),
            final(self).spec_delay() == old(self).spec_delay(),
            final(self).spec_min_gap() == old(self).spec_min_gap(),
    {
        self.last_start = Some(now_ms);
    }

    /// The request in flight finished at `now_ms`.
    pub fn record_finish(&mut self, now_ms: u64)
        ensures
            final(self).spec_last_finish() == Some(now_ms),
            final(self).spec_last_start() == old(self).spec_last_start(),
            final(self).spec_delay() == old(self).spec_delay(),
            final(self).spec_min_gap() == old(self).spec_min_gap(),
    {
        self.last_finish = Some(now_ms);
    }
}

/// Politeness: a request started when the pacer allows it, after the
/// previous request started at `prev_start` and finished at `prev_finish`,
/// starts at least `delay_ms` after that previous start.
pub proof fn lemma_requests_are_spaced(p: Pacer, prev_start: u64, prev_finish: u64, next_start: u64)
    requires
        p.spec_last_start() == Some(prev_start),
        p.spec_last_finish() == Some(prev_finish),
        prev_finish >= prev_start,
        next_start >= earliest_start(p.spec_delay(), p.spec_min_gap(), p.spec_last_start(), p.spec_last_finish()),
    ensures
        next_start - prev_start >= p.spec_delay(),
        next_start - prev_start >= p.spec_min_gap(),
{
}

/// The decimal digit of `d`.
pub open spec fn digit_char(d: nat) -> char {
    if d == 0 { '0' } else if d == 1 { '1' } else if d == 2 { '2' } else if d == 3 { '3' } else if d == 4 { '4' }
    else if d == 5 { '5' } else if d == 6 { '6' } else if d == 7 { '7' } else if d == 8 { '8' } else { '9' }
}

/// The decimal numeral of `n`.
pub open spec fn decimal(n: nat) -> Seq<char>
    decreases n,
{
    if n < 10 { seq![digit_char(n)] } else { decimal(n / 10).push(digit_char(n % 10)) }
}

fn digit_exec(d: usize) -> (r: char)
    requires
        d < 10,
    ensures
        r == digit_char(d as nat),
{
    if d == 0 { '0' } else if d == 1 { '1' } else if d == 2 { '2' } else if d == 3 { '3' } else if d == 4 { '4' }
    else if d == 5 { '5' } else if d == 6 { '6' } else if d == 7 { '7' } else if d == 8 { '8' } else { '9' }
}

/// The decimal numeral of `n`.
pub fn decimal_chars(n: usize) -> (r: Vec<char>)
    ensures
        r@ == decimal(n as nat),
    decreases n,
{
    if n < 10 {
        vec![digit_exec(n)]
    } else {
        let mut v = decimal_chars(n / 10);
        v.push(digit_exec(n % 10));
        v
    }
}

fn append_str(v: &mut Vec<char>, s: &str)
    ensures
        final(v)@ == old(v)@ + s@,
{
    let w = crate::text::chars_of(s);
    let mut k: usize = 0;
    while k < w.len()
        invariant
            k <= w@.len(),
            w@ == s@,
            v@ == old(v)@ + w@.take(k as int),
        decreases w@.len() - k,
    {
        v.push(w[k]);
        assert(w@.take(k + 1) == w@.take(k as int).push(w@[k as int]));
        k = k + 1;
    }
    assert(w@.take(w@.len() as int) == w@);
}

fn copy_opt(o: &Option<String>) -> (r: Option<String>)
    ensures
        r == *o,
{
    match o {
        Some(s) => Some(s.clone()),
        None => None,
    }
}

/// The document stored for the `i`-th of `total` passages of the page at
/// `url`: id `<url>_chunk_<i>`, the passage's text and heading path, the
/// page's title and language, documentation content, updated `now`, and
/// tags `has-code` or `no-code` and `chunk-<i+1>-of-<total>`.
pub open spec fn is_chunk_document(
    d: Document,
    url: Seq<char>,
    i: nat,
    total: nat,
    chunk: DocumentChunk,
    title: String,
    language: Option<String>,
    now: u64,
) -> bool {
    &&& d.id@ == url + "_chunk_"@ + decimal(i)
    &&& d.content@ == chunk.content@
    &&& d.url@ == url
    &&& d.title == Some(title)
    &&& d.section == chunk.heading_context
    &&& d.metadata.content_type == ContentType::Documentation
    &&& d.metadata.language == language
    &&& d.metadata.last_updated == Some(now)
    &&& d.metadata.tags@.len() == 2
    &&& d.metadata.tags@[0]@ == (if chunk.has_code { "has-code"@ } else { "no-code"@ })
    &&& d.metadata.tags@[1]@ == "chunk-"@ + decimal(i + 1) + "-of-"@ + decimal(total)
}

/// The document stored for the `i`-th of `total` passages of a page.
pub fn chunk_document(
    url: &str,
    i: usize,
    total: usize,
    chunk: &DocumentChunk,
    title: &String,
    language: &Option<String>,
    now: u64,
) -> (r: Document)
    requires
        i < total,
    ensures
        is_chunk_document(r, url@, i as nat, total as nat, *chunk, *title, *language, now),
{
    let mut id: Vec<char> = Vec::new();
    append_str(&mut id, url);
    append_str(&mut id, "_chunk_");
    let num = decimal_chars(i);
    let ghost before = id@;
    let mut k: usize = 0;
    while k < num.len()
        invariant
            k <= num@.len(),
            id@ == before + num@.take(k as int),
        decreases num@.len() - k,
    {
        id.push(num[k]);
        assert(num@.take(k + 1) == num@.take(k as int).push(num@[k as int]));
        k = k + 1;
    }
    assert(num@.take(num@.len() as int) == num@);
    let id_len = id.len();
    assert(id@.subrange(0, id_len as int) == id@);
    let code_tag = if chunk.has_code { String::from_str("has-code") } else { String::from_str("no-code") };
    let mut tag: Vec<char> = Vec::new();
    append_str(&mut tag, "chunk-");
    let a = decimal_chars(i + 1);
    let b = decimal_chars(total);
    let ghost t0 = tag@;
    let mut k: usize = 0;
    while k < a.len()
        invariant
            k <= a@.len(),
            tag@ == t0 + a@.take(k as int),
        decreases a@.len() - k,
    {
        tag.push(a[k]);
        assert(a@.take(k + 1) == a@.take(k as int).push(a@[k as int]));
        k = k + 1;
    }
    assert(a@.take(a@.len() as int) == a@);
    append_str(&mut tag, "-of-");
    let ghost t1 = tag@;
    let mut k: usize = 0;
    while k < b.len()
        invariant
            k <= b@.len(),
            tag@ == t1 + b@.take(k as int),
        decreases b@.len() - k,
    {
        tag.push(b[k]);
        assert(b@.take(k + 1) == b@.take(k as int).push(b@[k as int]));
        k = k + 1;
    }
    assert(b@.take(b@.len() as int) == b@);
    let tag_len = tag.len();
    assert(tag@.subrange(0, tag_len as int) == tag@);
    let count_tag = string_of(&tag, 0, tag_len);
    let tags = vec![code_tag, count_tag];
    Document {
        id: string_of(&id, 0, id_len),
        content: chunk.content.clone(),
        url: String::from_str(url),
        title: Some(title.clone()),
        section: copy_opt(&chunk.heading_context),
        metadata: DocumentMetadata {
            content_type: ContentType::Documentation,
            language: copy_opt(language),
            last_updated: Some(now),
            tags,
        },
    }
}

/// The documents stored for the passages `chunks` of the page at `url`.
pub fn page_documents(url: &str, chunks: &Vec<DocumentChunk>, title: &String, language: &Option<String>, now: u64) -> (r: Vec<Document>)
    ensures
        r@.len() == chunks@.len(),
        forall|i: int| 0 <= i < r@.len() ==> is_chunk_document(#[trigger] r@[i], url@, i as nat, chunks@.len(),
            chunks@[i], *title, *language, now),
{
    let mut out: Vec<Document> = Vec::new();
    let total = chunks.len();
    let mut i: usize = 0;
    while i < total
        invariant
            total == chunks@.len(),
            i <= total,
            out@.len() == i,
            forall|k: int| 0 <= k < i ==> is_chunk_document(#[trigger] out@[k], url@, k as nat, total as nat,
                chunks@[k], *title, *language, now),
        decreases total - i,
    {
        let d = chunk_document(url, i, total, &chunks[i], title, language, now);
        out.push(d);
        i = i + 1;
    }
    out
}

} // verus!
