//! Pages out of a dump of Wikipedia: their summaries and the links between
//! them.

use vstd::prelude::*;
use vstd::string::*;

use crate::text;

verus! {

// ---------------------------------------------------------------------------
// Pages
// ---------------------------------------------------------------------------

/// What is read of a dump: the start of a tag, text, or the end of a tag.
#[derive(Debug)]
pub enum DumpEvent {
    Start(String),
    Text(String),
    End(String),
}

/// A page: its identity, its title and its text.
#[derive(Debug)]
pub struct Page {
    pub id: String,
    pub title: String,
    pub text: String,
}

/// What is known while a dump is read.
#[derive(Debug)]
pub struct PageReader {
    pub inside_page: bool,
    pub tag: String,
    pub page: Page,
}

/// A text that is no text.
pub open spec fn is_empty_page(p: Page) -> bool {
    p.id@.len() == 0 && p.title@.len() == 0 && p.text@.len() == 0
}

/// The page after text in a tag. Of several identities the first is that of the
/// page; the others are those of its revisions.
pub open spec fn takes_text(
    before: Page,
    after: Page,
    inside_page: bool,
    tag: Seq<char>,
    more: Seq<char>,
) -> bool {
    &&& after.title@ == before.title@ + if inside_page && tag == "title"@ {
        more
    } else {
        Seq::empty()
    }
    &&& after.id@ == if inside_page && tag == "id"@ && before.id@.len() == 0 {
        more
    } else {
        before.id@
    }
    &&& after.text@ == before.text@ + if inside_page && tag == "text"@ {
        more
    } else {
        Seq::empty()
    }
}

impl PageReader {
    /// Before the start of a dump.
    pub fn new() -> (r: Self)
        ensures
            !r.inside_page,
            r.tag@.len() == 0,
            is_empty_page(r.page),
    {
        PageReader {
            inside_page: false,
            tag: String::new(),
            page: Page { id: String::new(), title: String::new(), text: String::new() },
        }
    }

    /// Takes in what comes next. Where a page ends, it is returned.
    pub fn take_event(&mut self, event: DumpEvent) -> (r: Option<Page>)
        ensures
            match event {
                DumpEvent::Start(name) => {
                    &&& r is None
                    &&& final(self).tag == name
                    &&& final(self).inside_page == (old(self).inside_page || name@ == "page"@)
                    &&& if name@ == "page"@ {
                        is_empty_page(final(self).page)
                    } else {
                        final(self).page == old(self).page
                    }
                },
                DumpEvent::Text(more) => {
                    &&& r is None
                    &&& final(self).tag == old(self).tag
                    &&& final(self).inside_page == old(self).inside_page
                    &&& takes_text(
                        old(self).page,
                        final(self).page,
                        old(self).inside_page,
                        old(self).tag@,
                        more@,
                    )
                },
                DumpEvent::End(name) => {
                    &&& final(self).tag == old(self).tag
                    &&& if name@ == "page"@ {
                        !final(self).inside_page && r == Some(old(self).page)
                            && same_page(final(self).page, old(self).page)
                    } else {
                        *final(self) == *old(self) && r is None
                    }
                },
            },
    {
        match event {
            DumpEvent::Start(name) => {
                if text::same(name.as_str(), "page") {
                    self.inside_page = true;
                    self.page = Page {
                        id: String::new(),
                        title: String::new(),
                        text: String::new(),
                    };
                }
                self.tag = name;
                None
            },
            DumpEvent::Text(more) => {
                let ghost before = self.page;
                if self.inside_page {
                    if text::same(self.tag.as_str(), "title") {
                        self.page.title.append(more.as_str());
                    } else if text::same(self.tag.as_str(), "id") {
                        if self.page.id.as_str().unicode_len() == 0 {
                            self.page.id = more;
                        }
                    } else if text::same(self.tag.as_str(), "text") {
                        self.page.text.append(more.as_str());
                    }
                }
                proof {
                    reveal_strlit("title");
                    reveal_strlit("id");
                    reveal_strlit("text");
                    assert("title"@[1] == 'i' && "text"@[1] == 'e');
                    assert("title"@ != "text"@ && "title"@ != "id"@ && "id"@ != "text"@);
                    assert(before.title@ + Seq::<char>::empty() =~= before.title@);
                    assert(before.text@ + Seq::<char>::empty() =~= before.text@);
                }
                None
            },
            DumpEvent::End(name) => {
                if text::same(name.as_str(), "page") {
                    self.inside_page = false;
                    let mut done = Page {
                        id: self.page.id.clone(),
                        title: self.page.title.clone(),
                        text: self.page.text.clone(),
                    };
                    std::mem::swap(&mut self.page, &mut done);
                    Some(done)
                } else {
                    None
                }
            },
        }
    }
}

/// Two pages say the same.
pub open spec fn same_page(a: Page, b: Page) -> bool {
    a.id@ == b.id@ && a.title@ == b.title@ && a.text@ == b.text@
}

// ---------------------------------------------------------------------------
// Summaries and links
// ---------------------------------------------------------------------------

/// The number of characters of a summary.
pub const SUMMARY_CHARS: usize = 500;

/// The start of a text; dots stand for the rest.
pub open spec fn summary_of(s: Seq<char>) -> Seq<char> {
    if s.len() > SUMMARY_CHARS {
        s.take(SUMMARY_CHARS as int) + "..."@
    } else {
        s
    }
}

/// The summary of a text.
pub fn summary(s: &str) -> (r: String)
    ensures
        r@ == summary_of(s@),
{
    let chars: Vec<char> = text::to_chars(s);
    if chars.len() > SUMMARY_CHARS {
        let mut out: String = text::slice_text(&chars, 0, SUMMARY_CHARS);
        assert(out@ =~= s@.take(SUMMARY_CHARS as int));
        out.append("...");
        out
    } else {
        s.to_owned()
    }
}

/// A summary starts as its text does, and is never longer than the limit and the
/// dots.
pub proof fn law_summaries_are_short(s: Seq<char>)
    ensures
        summary_of(s).len() <= SUMMARY_CHARS + 3,
        forall|i: int|
            0 <= i < s.len() && i < SUMMARY_CHARS ==> #[trigger] summary_of(s)[i] == s[i],
{
    reveal_strlit("...");
}

/// What the first group of a pattern holds in each place where the pattern
/// matches a text, one match behind the other; none where the pattern is not
/// well formed. A match in which the first group takes no part is passed over.
pub uninterp spec fn regex_groups(pattern: Seq<char>, s: Seq<char>) -> Option<Seq<Seq<char>>>;

/// Compiles a pattern (`regex::Regex::new`), finds its matches
/// (`Regex::captures_iter`) and takes the first group of each
/// (`regex::Captures::get`), passing over those in which it takes no part. The
/// outcome depends on the pattern and the text alone.
#[verifier::external_body]
fn first_groups(pattern: &str, s: &str) -> (r: Option<Vec<String>>)
    ensures
        match r {
            Some(v) => regex_groups(pattern@, s@) == Some(text::texts(v@)),
            None => regex_groups(pattern@, s@) is None,
        },
{
    let regex = regex::Regex::new(pattern).ok()?;
    let groups = regex.captures_iter(s).flat_map(|c| c.get(1));
    Some(groups.map(|m| m.as_str().to_owned()).collect())
}

/// The target of a link: what stands before the text that is shown for it.
pub open spec fn target_of(link: Seq<char>) -> Seq<char> {
    text::pieces(link, '|')[0]
}

/// The targets of links to pages, in their order: those with a colon lead
/// elsewhere.
pub open spec fn page_targets(links: Seq<Seq<char>>) -> Seq<Seq<char>>
    decreases links.len(),
{
    if links.len() == 0 {
        Seq::empty()
    } else {
        let before = page_targets(links.drop_last());
        let target = target_of(links.last());
        if target.contains(':') {
            before
        } else {
            before.push(target)
        }
    }
}

/// The targets of links to pages.
pub fn link_targets(links: &Vec<String>) -> (r: Vec<String>)
    ensures
        text::texts(r@) == page_targets(text::texts(links@)),
{
    let ghost all = text::texts(links@);
    let mut out: Vec<String> = Vec::new();
    let mut i: usize = 0;
    assert(all.take(0) =~= Seq::<Seq<char>>::empty());
    assert(text::texts(out@) =~= Seq::<Seq<char>>::empty());
    while i < links.len()
        invariant
            all == text::texts(links@),
            i <= links.len(),
            text::texts(out@) == page_targets(all.take(i as int)),
        decreases links.len() - i,
    {
        assert(all[i as int] == links@[i as int]@);
        assert(all.take(i + 1).drop_last() =~= all.take(i as int));
        let target: String = first_piece(links[i].as_str());
        if !text::has_char(target.as_str(), ':') {
            let ghost before = out@;
            out.push(target);
            assert(text::texts(out@) =~= text::texts(before).push(target@));
        }
        i = i + 1;
    }
    assert(all.take(i as int) =~= all);
    out
}

fn first_piece(link: &str) -> (r: String)
    ensures
        r@ == target_of(link@),
{
    let mut parts: Vec<String> = text::split(link, '|');
    assert(text::texts(parts@)[0] == parts@[0]@);
    parts.remove(0)
}

/// The targets of the links in a text: the double brackets that close on the same
/// line.
pub fn page_links(s: &str) -> (r: Option<Vec<String>>)
    ensures
        match r {
            Some(v) => regex_groups("\\[\\[(.*?)\\]\\]"@, s@) matches Some(links)
                && text::texts(v@) == page_targets(links),
            None => regex_groups("\\[\\[(.*?)\\]\\]"@, s@) is None,
        },
{
    match first_groups("\\[\\[(.*?)\\]\\]", s) {
        Some(links) => Some(link_targets(&links)),
        None => None,
    }
}

// ---------------------------------------------------------------------------
// What is written
// ---------------------------------------------------------------------------

/// After how many pages they are written.
pub const FLUSH_PAGES: usize = 1_000_000;

/// After how many links they are written.
pub const FLUSH_EDGES: usize = 8_000_000;

/// The pages and links that are to be written, column by column, and how many
/// there were in all.
#[derive(Debug)]
pub struct PageBuffer {
    pub ids: Vec<String>,
    pub titles: Vec<String>,
    pub summaries: Vec<String>,
    pub sources: Vec<String>,
    pub targets: Vec<String>,
    pub total_pages: u64,
    pub total_edges: u64,
}

impl PageBuffer {
    /// The columns of pages are of one length, and so are those of links.
    pub open spec fn wf(self) -> bool {
        &&& self.ids@.len() == self.titles@.len()
        &&& self.ids@.len() == self.summaries@.len()
        &&& self.sources@.len() == self.targets@.len()
    }

    /// Nothing to write.
    pub fn new() -> (r: Self)
        ensures
            r.wf(),
            r.ids@.len() == 0,
            r.sources@.len() == 0,
            r.total_pages == 0,
            r.total_edges == 0,
    {
        PageBuffer {
            ids: Vec::new(),
            titles: Vec::new(),
            summaries: Vec::new(),
            sources: Vec::new(),
            targets: Vec::new(),
            total_pages: 0,
            total_edges: 0,
        }
    }

    /// Adds a page and the targets of its links.
    pub fn add_page(&mut self, page: &Page, links: Vec<String>)
        requires
            old(self).wf(),
            old(self).total_pages < u64::MAX,
            old(self).total_edges + links@.len() <= u64::MAX,
        ensures
            final(self).wf(),
            text::texts(final(self).ids@) == text::texts(old(self).ids@).push(page.id@),
            text::texts(final(self).titles@) == text::texts(old(self).titles@).push(page.title@),
            text::texts(final(self).summaries@) == text::texts(old(self).summaries@).push(
                summary_of(page.text@),
            ),
            text::texts(final(self).sources@) == text::texts(old(self).sources@) + Seq::new(
                links@.len(),
                |i: int| page.title@,
            ),
            final(self).targets@ == old(self).targets@ + links@,
            final(self).total_pages == old(self).total_pages + 1,
            final(self).total_edges == old(self).total_edges + links@.len(),
    {
        let ghost before = *self;
        let ghost title = page.title@;
        self.ids.push(page.id.clone());
        self.titles.push(page.title.clone());
        self.summaries.push(summary(page.text.as_str()));
        assert(text::texts(self.ids@) =~= text::texts(before.ids@).push(page.id@));
        assert(text::texts(self.titles@) =~= text::texts(before.titles@).push(page.title@));
        assert(text::texts(self.summaries@) =~= text::texts(before.summaries@).push(
            summary_of(page.text@),
        ));
        let count: usize = links.len();
        let mut links: Vec<String> = links;
        let mut sources: Vec<String> = Vec::new();
        let mut i: usize = 0;
        while i < count
            invariant
                i <= count,
                title == page.title@,
                sources@.len() == i,
                forall|k: int| 0 <= k < i ==> (#[trigger] sources@[k])@ == title,
            decreases count - i,
        {
            sources.push(page.title.clone());
            i = i + 1;
        }
        self.sources.append(&mut sources);
        assert(text::texts(self.sources@) =~= text::texts(before.sources@) + Seq::new(
            count as nat,
            |i: int| title,
        ));
        self.targets.append(&mut links);
        self.total_pages = self.total_pages + 1;
        self.total_edges = self.total_edges + count as u64;
    }

    /// Whether the pages are to be written.
    pub fn pages_full(&self) -> (r: bool)
        ensures
            r == (self.titles@.len() >= FLUSH_PAGES),
    {
        self.titles.len() >= FLUSH_PAGES
    }

    /// Whether the links are to be written.
    pub fn edges_full(&self) -> (r: bool)
        ensures
            r == (self.sources@.len() >= FLUSH_EDGES),
    {
        self.sources.len() >= FLUSH_EDGES
    }

    /// Hands the pages out to be written.
    pub fn take_pages(&mut self) -> (r: (Vec<String>, Vec<String>, Vec<String>))
        requires
            old(self).wf(),
        ensures
            final(self).wf(),
            r.0 == old(self).ids,
            r.1 == old(self).titles,
            r.2 == old(self).summaries,
            final(self).ids@.len() == 0,
            final(self).sources == old(self).sources,
            final(self).targets == old(self).targets,
            final(self).total_pages == old(self).total_pages,
            final(self).total_edges == old(self).total_edges,
    {
        let mut ids: Vec<String> = Vec::new();
        std::mem::swap(&mut self.ids, &mut ids);
        let mut titles: Vec<String> = Vec::new();
        std::mem::swap(&mut self.titles, &mut titles);
        let mut summaries: Vec<String> = Vec::new();
        std::mem::swap(&mut self.summaries, &mut summaries);
        (ids, titles, summaries)
    }

    /// Hands the links out to be written.
    pub fn take_edges(&mut self) -> (r: (Vec<String>, Vec<String>))
        requires
            old(self).wf(),
        ensures
            final(self).wf(),
            r.0 == old(self).sources,
            r.1 == old(self).targets,
            final(self).sources@.len() == 0,
            final(self).ids == old(self).ids,
            final(self).titles == old(self).titles,
            final(self).summaries == old(self).summaries,
            final(self).total_pages == old(self).total_pages,
            final(self).total_edges == old(self).total_edges,
    {
        let mut sources: Vec<String> = Vec::new();
        std::mem::swap(&mut self.sources, &mut sources);
        let mut targets: Vec<String> = Vec::new();
        std::mem::swap(&mut self.targets, &mut targets);
        (sources, targets)
    }
}

/// A link goes to what stands before the bar, whatever stands behind it; a link to another
/// kind of page, with a colon, is left out, and the others keep their order.
pub proof fn law_links_go_to_pages(links: Seq<Seq<char>>, target: Seq<char>, label: Seq<char>)
    requires
        !target.contains('|'),
        !label.contains('|'),
    ensures
        page_targets(Seq::empty()) == Seq::<Seq<char>>::empty(),
        target.contains(':') ==> page_targets(links.push(target)) == page_targets(links)
            && page_targets(links.push(target + "|"@ + label)) == page_targets(links),
        !target.contains(':') ==> page_targets(links.push(target)) == page_targets(links).push(
            target,
        ) && page_targets(links.push(target + "|"@ + label)) == page_targets(links).push(target),
{
    reveal_strlit("|");
    text::lemma_piece_behind(Seq::empty(), target, '|');
    text::lemma_piece_behind(target, label, '|');
    let both = target + "|"@ + label;
    assert(target.push('|') + label =~= both);
    assert(target_of(target) == target);
    assert(target_of(both) == target);
    assert(links.push(target).drop_last() =~= links);
    assert(links.push(both).drop_last() =~= links);
}

/// A page takes the text of its own elements, in order: title and text grow, the first number
/// stays, and what stands outside of a page or in another element changes nothing.
pub proof fn law_pages_take_their_elements(
    before: Page,
    after: Page,
    inside: bool,
    tag: Seq<char>,
    more: Seq<char>,
)
    requires
        takes_text(before, after, inside, tag, more),
    ensures
        !inside ==> same_page(after, before),
        tag != "title"@ && tag != "id"@ && tag != "text"@ ==> same_page(after, before),
        inside && tag == "title"@ ==> after.title@ == before.title@ + more && after.id@
            == before.id@ && after.text@ == before.text@,
        inside && tag == "text"@ ==> after.text@ == before.text@ + more && after.id@ == before.id@
            && after.title@ == before.title@,
        inside && tag == "id"@ && before.id@.len() == 0 ==> after.id@ == more,
        before.id@.len() > 0 ==> after.id@ == before.id@,
{
    reveal_strlit("title");
    reveal_strlit("id");
    reveal_strlit("text");
    assert("title"@.len() == 5 && "id"@.len() == 2 && "text"@.len() == 4);
    assert(before.title@ + Seq::<char>::empty() =~= before.title@);
    assert(before.text@ + Seq::<char>::empty() =~= before.text@);
}

} // verus!
