//! Markdown through pulldown-cmark: the text runs of a document, the title and
//! date that they carry, and the document rendered as HTML.

use crate::date::{date_of_token, parse_date, Date};
use crate::error::SiteError;
use vstd::prelude::*;

verus! {

/// The markdown extensions enabled for every parse of a batch.
#[derive(Clone, Copy, Debug, PartialEq, Eq, Structural)]
pub struct SyntaxOptions {
    pub strikethrough: bool,
    pub heading_attributes: bool,
}

impl SyntaxOptions {
    /// Strikethrough and heading attributes, the set a site is built with.
    pub fn standard() -> (r: SyntaxOptions)
        ensures
            r.strikethrough,
            r.heading_attributes,
    {
        SyntaxOptions { strikethrough: true, heading_attributes: true }
    }
}

/// The event stream of a markdown document, one entry per event: the text of a
/// plain-text event, `None` for any other event.
pub uninterp spec fn markdown_events(
    source: Seq<char>,
    strikethrough: bool,
    heading_attributes: bool,
) -> Seq<Option<Seq<char>>>;

/// The HTML that a markdown document renders to.
pub uninterp spec fn markdown_html(
    source: Seq<char>,
    strikethrough: bool,
    heading_attributes: bool,
) -> Seq<char>;

pub open spec fn events_of(source: Seq<char>, options: SyntaxOptions) -> Seq<Option<Seq<char>>> {
    markdown_events(source, options.strikethrough, options.heading_attributes)
}

pub open spec fn html_of(source: Seq<char>, options: SyntaxOptions) -> Seq<char> {
    markdown_html(source, options.strikethrough, options.heading_attributes)
}

pub open spec fn event_view(e: Option<String>) -> Option<Seq<char>> {
    match e {
        Some(t) => Some(t@),
        None => None,
    }
}

pub open spec fn events_view(events: Seq<Option<String>>) -> Seq<Option<Seq<char>>> {
    events.map_values(|e: Option<String>| event_view(e))
}

/// Relies on pulldown_cmark's `Parser::new_ext`: the events it yields for a
/// document under the given extensions depend on the text and the extensions alone.
/// Each event is kept as its text when it is `Event::Text`, and as `None` otherwise.
#[verifier::external_body]
fn parse_events(source: &str, options: SyntaxOptions) -> (r: Vec<Option<String>>)
    ensures
        events_view(r@) == markdown_events(
            source@,
            options.strikethrough,
            options.heading_attributes,
        ),
{
    let mut opts = pulldown_cmark::Options::empty();
    opts.set(pulldown_cmark::Options::ENABLE_STRIKETHROUGH, options.strikethrough);
    opts.set(pulldown_cmark::Options::ENABLE_HEADING_ATTRIBUTES, options.heading_attributes);
    pulldown_cmark::Parser::new_ext(source, opts).map(
        |e| match e {
            pulldown_cmark::Event::Text(t) => Some(t.into_string()),
            _ => None,
        },
    ).collect()
}

/// Relies on pulldown_cmark's `html::push_html` over `Parser::new_ext`: it appends
/// the HTML of the document to `out`, and that HTML depends on the text and the
/// extensions alone.
#[verifier::external_body]
fn push_markdown_html(out: &mut String, source: &str, options: SyntaxOptions)
    ensures
        final(out)@ == old(out)@ + markdown_html(
            source@,
            options.strikethrough,
            options.heading_attributes,
        ),
{
    let mut opts = pulldown_cmark::Options::empty();
    opts.set(pulldown_cmark::Options::ENABLE_STRIKETHROUGH, options.strikethrough);
    opts.set(pulldown_cmark::Options::ENABLE_HEADING_ATTRIBUTES, options.heading_attributes);
    pulldown_cmark::html::push_html(out, pulldown_cmark::Parser::new_ext(source, opts));
}

/// Appends the HTML of a markdown document to `out`.
pub fn render_markdown(out: &mut String, source: &str, options: SyntaxOptions)
    ensures
        final(out)@ == old(out)@ + html_of(source@, options),
{
    push_markdown_html(out, source, options);
}

/// The plain-text runs of an event stream, in document order.
pub open spec fn text_runs(events: Seq<Option<Seq<char>>>) -> Seq<Seq<char>>
    decreases events.len(),
{
    if events.len() == 0 {
        Seq::empty()
    } else {
        match events.last() {
            Some(t) => text_runs(events.drop_last()).push(t),
            None => text_runs(events.drop_last()),
        }
    }
}

/// Title and date from the text runs of a document: the first run is the
/// title, the second the `M.D.YY` date.
pub open spec fn metadata_of_runs(runs: Seq<Seq<char>>) -> Result<(Seq<char>, Date), SiteError> {
    if runs.len() < 2 {
        Err(SiteError::DocumentMetadata)
    } else {
        match date_of_token(runs[1]) {
            Some(d) => Ok((runs[0], d)),
            None => Err(SiteError::DocumentMetadata),
        }
    }
}

pub open spec fn metadata_of(source: Seq<char>, options: SyntaxOptions) -> Result<(Seq<char>, Date), SiteError> {
    metadata_of_runs(text_runs(events_of(source, options)))
}

pub open spec fn metadata_view(r: Result<(String, Date), SiteError>) -> Result<(Seq<char>, Date), SiteError> {
    match r {
        Ok((t, d)) => Ok((t@, d)),
        Err(e) => Err(e),
    }
}

/// The runs of a prefix of an event stream are a prefix of the stream's runs.
pub proof fn lemma_runs_prefix(events: Seq<Option<Seq<char>>>, j: int)
    requires
        0 <= j <= events.len(),
    ensures
        text_runs(events.subrange(0, j)).len() <= text_runs(events).len(),
        forall|k: int|
            0 <= k < text_runs(events.subrange(0, j)).len() ==> #[trigger] text_runs(
                events.subrange(0, j),
            )[k] == text_runs(events)[k],
    decreases events.len(),
{
    if j == events.len() {
        assert(events.subrange(0, j) =~= events);
    } else {
        let d = events.drop_last();
        lemma_runs_prefix(d, j);
        assert(d.subrange(0, j) =~= events.subrange(0, j));
    }
}

/// Title and date from the events of a document, as `parse_events` gives them.
pub fn metadata_from_events(events: &Vec<Option<String>>) -> (r: Result<(String, Date), SiteError>)
    ensures
        metadata_view(r) == metadata_of_runs(text_runs(events_view(events@))),
{
    let ghost ev = events_view(events@);
    let mut found: Vec<String> = Vec::new();
    let mut i: usize = 0;
    while i < events.len() && found.len() < 2
        invariant
            ev == events_view(events@),
            i <= events.len(),
            found@.len() <= 2,
            found@.map_values(|t: String| t@) == text_runs(ev.subrange(0, i as int)),
        decreases events.len() - i,
    {
        proof {
            assert(ev.subrange(0, i + 1).drop_last() =~= ev.subrange(0, i as int));
            assert(ev.subrange(0, i + 1).last() == event_view(events@[i as int]));
        }
        match &events[i] {
            Some(t) => {
                found.push(t.clone());
            },
            None => {},
        }
        assert(found@.map_values(|t: String| t@) =~= text_runs(ev.subrange(0, i + 1)));
        i = i + 1;
    }
    proof {
        lemma_runs_prefix(ev, i as int);
        if found.len() < 2 {
            assert(ev.subrange(0, i as int) =~= ev);
        }
        assert(found@.map_values(|t: String| t@).len() == found@.len());
    }
    if found.len() < 2 {
        return Err(SiteError::DocumentMetadata);
    }
    proof {
        assert(found@.map_values(|t: String| t@)[0] == found@[0]@);
        assert(found@.map_values(|t: String| t@)[1] == found@[1]@);
    }
    match parse_date(found[1].as_str()) {
        Some(d) => Ok((found[0].clone(), d)),
        None => Err(SiteError::DocumentMetadata),
    }
}

/// Title and date of a markdown document: its first two plain-text runs, the
/// second read as an `M.D.YY` date.
pub fn extract_metadata(source: &str, options: SyntaxOptions) -> (r: Result<(String, Date), SiteError>)
    ensures
        metadata_view(r) == metadata_of(source@, options),
{
    let events = parse_events(source, options);
    metadata_from_events(&events)
}

} // verus!
