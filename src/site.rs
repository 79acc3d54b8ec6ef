//! The batch: every post rendered, newest first, and the index page.

use crate::date::{format_date, short_date_text, Date};
use crate::error::SiteError;
use crate::markdown::{metadata_of, text_runs, events_of, SyntaxOptions};
use crate::post::{
    body_marker, output_path, output_path_of, post_of, render_post, Post, PostView,
};
use crate::text::{head_of, index_of, split_once, tail_of};
use vstd::prelude::*;

verus! {

/// `a` is the same day as `b` or a later one.
pub open spec fn later_or_same(a: Date, b: Date) -> bool {
    a.year > b.year || (a.year == b.year && (a.month > b.month || (a.month == b.month && a.day
        >= b.day)))
}

/// Posts listed newest first.
pub open spec fn newest_first(s: Seq<PostView>) -> bool {
    forall|i: int, j: int| 0 <= i < j < s.len() ==> later_or_same(#[trigger] s[i].date, #[trigger] s[j].date)
}

pub open spec fn dated(d: Date) -> spec_fn(PostView) -> bool {
    |p: PostView| p.date == d
}

pub open spec fn views(s: Seq<Post>) -> Seq<PostView> {
    s.map_values(|p: Post| p@)
}

/// Where a post of date `d` goes in a list that is newest first: after every
/// post of the same day or a later one.
pub open spec fn insert_pos(r: Seq<PostView>, d: Date) -> int
    decreases r.len(),
{
    if r.len() == 0 {
        0
    } else if later_or_same(r[0].date, d) {
        1 + insert_pos(r.drop_first(), d)
    } else {
        0
    }
}

pub open spec fn insert_by_date(r: Seq<PostView>, x: PostView) -> Seq<PostView> {
    r.insert(insert_pos(r, x.date), x)
}

/// The posts newest first; posts of one day keep the order they came in.
pub open spec fn sort_by_date(s: Seq<PostView>) -> Seq<PostView>
    decreases s.len(),
{
    if s.len() == 0 {
        s
    } else {
        insert_by_date(sort_by_date(s.drop_last()), s.last())
    }
}

proof fn lemma_insert_pos(r: Seq<PostView>, d: Date)
    ensures
        0 <= insert_pos(r, d) <= r.len(),
        forall|k: int| 0 <= k < insert_pos(r, d) ==> later_or_same(#[trigger] r[k].date, d),
        insert_pos(r, d) < r.len() ==> !later_or_same(r[insert_pos(r, d)].date, d),
    decreases r.len(),
{
    if r.len() > 0 && later_or_same(r[0].date, d) {
        lemma_insert_pos(r.drop_first(), d);
        assert forall|k: int| 0 <= k < insert_pos(r, d) implies later_or_same(#[trigger] r[k].date, d) by {
            if k > 0 {
                assert(r[k] == r.drop_first()[k - 1]);
            }
        }
    }
}

proof fn lemma_insert_sorted(r: Seq<PostView>, x: PostView)
    requires
        newest_first(r),
    ensures
        newest_first(insert_by_date(r, x)),
{
    lemma_insert_pos(r, x.date);
}

proof fn lemma_filter_none(s: Seq<PostView>, d: Date)
    requires
        forall|k: int| 0 <= k < s.len() ==> (#[trigger] s[k]).date != d,
    ensures
        s.filter(dated(d)) == Seq::<PostView>::empty(),
{
    broadcast use Seq::lemma_filter_pred, Seq::lemma_filter_contains_rev;
    if s.filter(dated(d)).len() > 0 {
        let e = s.filter(dated(d))[0];
        assert(s.filter(dated(d)).contains(e));
        assert(s.contains(e));
    }
    assert(s.filter(dated(d)) =~= Seq::<PostView>::empty());
}

proof fn lemma_insert_filter(r: Seq<PostView>, x: PostView, d: Date)
    requires
        newest_first(r),
    ensures
        insert_by_date(r, x).filter(dated(d)) == (if x.date == d {
            r.filter(dated(d)).push(x)
        } else {
            r.filter(dated(d))
        }),
{
    lemma_insert_pos(r, x.date);
    let pos = insert_pos(r, x.date);
    let a = r.subrange(0, pos);
    let b = r.subrange(pos, r.len() as int);
    assert(r =~= a + b);
    assert(insert_by_date(r, x) =~= a + seq![x] + b);
    Seq::filter_distributes_over_add(a, b, dated(d));
    Seq::filter_distributes_over_add(a + seq![x], b, dated(d));
    Seq::filter_distributes_over_add(a, seq![x], dated(d));
    reveal(Seq::filter);
    let one = seq![x];
    assert(one.drop_last() =~= Seq::<PostView>::empty());
    assert(one.drop_last().filter(dated(d)) =~= Seq::<PostView>::empty());
    assert(one.last() == x);
    assert(one.filter(dated(d)) =~= (if x.date == d { seq![x] } else { Seq::<PostView>::empty() }));
    if x.date == d {
        assert forall|k: int| 0 <= k < b.len() implies (#[trigger] b[k]).date != d by {
            assert(b[k] == r[pos + k]);
            if k > 0 {
                assert(later_or_same(r[pos].date, r[pos + k].date));
            }
        }
        lemma_filter_none(b, d);
        assert(r.filter(dated(d)).push(x) =~= a.filter(dated(d)) + seq![x]);
    }
}

/// What `sort_by_date` gives is newest first.
pub proof fn lemma_sort_newest_first(s: Seq<PostView>)
    ensures
        newest_first(sort_by_date(s)),
    decreases s.len(),
{
    if s.len() > 0 {
        lemma_sort_newest_first(s.drop_last());
        lemma_insert_sorted(sort_by_date(s.drop_last()), s.last());
    }
}

/// Sorting keeps, for each day, exactly the posts of that day in the order
/// they came in: a stable sort.
pub proof fn lemma_sort_stable(s: Seq<PostView>, d: Date)
    ensures
        sort_by_date(s).filter(dated(d)) == s.filter(dated(d)),
    decreases s.len(),
{
    reveal(Seq::filter);
    if s.len() > 0 {
        lemma_sort_stable(s.drop_last(), d);
        lemma_sort_newest_first(s.drop_last());
        lemma_insert_filter(sort_by_date(s.drop_last()), s.last(), d);
    }
}


fn is_later_or_same(a: Date, b: Date) -> (r: bool)
    ensures
        r == later_or_same(a, b),
{
    a.year > b.year || (a.year == b.year && (a.month > b.month || (a.month == b.month && a.day
        >= b.day)))
}

/// Orders posts newest first; posts of the same day keep the order they came in.
pub fn sort_posts(posts: Vec<Post>) -> (r: Vec<Post>)
    ensures
        views(r@) == sort_by_date(views(posts@)),
        newest_first(views(r@)),
        forall|d: Date| #[trigger] views(r@).filter(dated(d)) == views(posts@).filter(dated(d)),
{
    let ghost s = views(posts@);
    let ghost n = s.len() as int;
    let ghost mut i: int = 0;
    let mut rest = posts;
    let mut out: Vec<Post> = Vec::new();
    assert(views(rest@) =~= s.subrange(0, n));
    assert(views(out@) =~= sort_by_date(s.subrange(0, 0)));
    while rest.len() > 0
        invariant
            0 <= i <= n,
            n == s.len(),
            views(rest@) == s.subrange(i, n),
            rest@.len() == n - i,
            views(out@) == sort_by_date(s.subrange(0, i)),
        decreases n - i,
    {
        let ghost before = views(out@);
        let ghost old_rest = rest@;
        assert(views(rest@)[0] == rest@[0]@);
        let x = rest.remove(0);
        assert(x@ == s[i]);
        let mut k: usize = 0;
        assert(before.subrange(0, before.len() as int) =~= before);
        while k < out.len() && is_later_or_same(out[k].date, x.date)
            invariant
                before == views(out@),
                k <= out.len(),
                insert_pos(before, x.date) == k + insert_pos(before.subrange(k as int, before.len() as int), x.date),
            decreases out.len() - k,
        {
            assert(before.subrange(k as int, before.len() as int).drop_first() =~= before.subrange(k + 1, before.len() as int));
            assert(before[k as int] == out@[k as int]@);
            k = k + 1;
        }
        proof {
            if k < out.len() {
                assert(before[k as int] == out@[k as int]@);
                assert(before.subrange(k as int, before.len() as int)[0] == before[k as int]);
            }
        }
        out.insert(k, x);
        proof {
            assert(views(out@) =~= before.insert(k as int, x@));
            assert(s.subrange(0, i + 1).drop_last() =~= s.subrange(0, i));
            assert forall|t: int| 0 <= t < rest@.len() implies views(rest@)[t] == s.subrange(i + 1, n)[t] by {
                assert(rest@[t] == old_rest[t + 1]);
                assert(views(old_rest)[t + 1] == old_rest[t + 1]@);
            }
            i = i + 1;
            assert(views(rest@) =~= s.subrange(i, n));
        }
    }
    proof {
        assert(s.subrange(0, i) =~= s);
        lemma_sort_newest_first(s);
        assert forall|d: Date| #[trigger] views(out@).filter(dated(d)) == s.filter(dated(d)) by {
            lemma_sort_stable(s, d);
        }
    }
    out
}


/// The index entry of one post: a card linking the post's page by its title,
/// then its date as `M.D.YY`.
pub open spec fn entry_of(p: PostView) -> Seq<char> {
    "<div class=\"card\"><a href=\""@ + output_path_of(p.slug) + "\">"@ + p.title + "</a>"@
        + "<p class=\"date\">"@ + short_date_text(p.date) + "</p></div>"@
}

/// The entries of a list of posts, in its order.
pub open spec fn entries_of(s: Seq<PostView>) -> Seq<char>
    decreases s.len(),
{
    if s.len() == 0 {
        Seq::empty()
    } else {
        entries_of(s.drop_last()) + entry_of(s.last())
    }
}

/// The index page: the entries put at the first body marker of the template.
pub open spec fn index_page(template: Seq<char>, posts: Seq<PostView>) -> Seq<char> {
    head_of(template, body_marker()) + entries_of(posts) + tail_of(template, body_marker())
}

/// Assembles the index page from posts in the order given.
pub fn build_index(posts: &Vec<Post>, template: &str) -> (r: Result<String, SiteError>)
    ensures
        match r {
            Ok(h) => index_of(template@, body_marker()) >= 0 && h@ == index_page(
                template@,
                views(posts@),
            ),
            Err(e) => e == SiteError::TemplateConfiguration && index_of(template@, body_marker())
                < 0,
        },
{
    proof {
        reveal_strlit("{body}");
    }
    let body_mark = "{body}";
    assert(body_mark@ =~= body_marker());
    let (head, tail) = match split_once(template, body_mark) {
        Some(parts) => parts,
        None => {
            return Err(SiteError::TemplateConfiguration);
        },
    };
    let ghost vs = views(posts@);
    let mut out = head;
    let mut i: usize = 0;
    assert(vs.subrange(0, 0) =~= Seq::<PostView>::empty());
    assert(out@ =~= head_of(template@, body_marker()) + entries_of(vs.subrange(0, 0)));
    while i < posts.len()
        invariant
            vs == views(posts@),
            i <= posts.len(),
            out@ == head_of(template@, body_marker()) + entries_of(vs.subrange(0, i as int)),
        decreases posts.len() - i,
    {
        let post = &posts[i];
        out.append("<div class=\"card\"><a href=\"");
        out.append(output_path(post.slug.as_str()).as_str());
        out.append("\">");
        out.append(post.title.as_str());
        out.append("</a>");
        out.append("<p class=\"date\">");
        out.append(format_date(post.date).as_str());
        out.append("</p></div>");
        proof {
            assert(vs[i as int] == post@);
            assert(vs.subrange(0, i + 1).drop_last() =~= vs.subrange(0, i as int));
            assert(out@ =~= head_of(template@, body_marker()) + entries_of(vs.subrange(0, i + 1)));
        }
        i = i + 1;
    }
    out.append(tail.as_str());
    assert(vs.subrange(0, i as int) =~= vs);
    assert(out@ =~= index_page(template@, vs));
    Ok(out)
}

/// A source document: its path and its markdown text.
pub struct SourceDoc {
    pub path: String,
    pub content: String,
}

impl View for SourceDoc {
    type V = (Seq<char>, Seq<char>);

    open spec fn view(&self) -> (Seq<char>, Seq<char>) {
        (self.path@, self.content@)
    }
}

/// A built site: the posts newest first, each with its page, and the index page.
pub struct Site {
    pub posts: Vec<Post>,
    pub index: String,
}

pub struct SiteView {
    pub posts: Seq<PostView>,
    pub index: Seq<char>,
}

pub open spec fn doc_views(docs: Seq<SourceDoc>) -> Seq<(Seq<char>, Seq<char>)> {
    docs.map_values(|d: SourceDoc| d@)
}

/// Every document rendered in the order given, or the error of the first that fails.
pub open spec fn render_all(
    docs: Seq<(Seq<char>, Seq<char>)>,
    root: Seq<char>,
    template: Seq<char>,
    options: SyntaxOptions,
) -> Result<Seq<PostView>, SiteError>
    decreases docs.len(),
{
    if docs.len() == 0 {
        Ok(Seq::empty())
    } else {
        match render_all(docs.drop_last(), root, template, options) {
            Err(e) => Err(e),
            Ok(ps) => match post_of(docs.last().0, root, docs.last().1, template, options) {
                Err(e) => Err(e),
                Ok(p) => Ok(ps.push(p)),
            },
        }
    }
}

/// Once a prefix of the documents fails, the whole list fails with that error.
proof fn lemma_render_all_err(
    docs: Seq<(Seq<char>, Seq<char>)>,
    j: int,
    root: Seq<char>,
    template: Seq<char>,
    options: SyntaxOptions,
)
    requires
        0 <= j <= docs.len(),
        render_all(docs.subrange(0, j), root, template, options) is Err,
    ensures
        render_all(docs, root, template, options) == render_all(
            docs.subrange(0, j),
            root,
            template,
            options,
        ),
    decreases docs.len(),
{
    if j == docs.len() {
        assert(docs.subrange(0, j) =~= docs);
    } else {
        assert(docs.drop_last().subrange(0, j) =~= docs.subrange(0, j));
        lemma_render_all_err(docs.drop_last(), j, root, template, options);
    }
}

/// The whole batch: all posts rendered, or the first failure; then the
/// posts newest first and the index page over them.
pub open spec fn site_of(
    docs: Seq<(Seq<char>, Seq<char>)>,
    root: Seq<char>,
    post_template: Seq<char>,
    index_template: Seq<char>,
    options: SyntaxOptions,
) -> Result<SiteView, SiteError> {
    match render_all(docs, root, post_template, options) {
        Err(e) => Err(e),
        Ok(ps) => if index_of(index_template, body_marker()) < 0 {
            Err(SiteError::TemplateConfiguration)
        } else {
            Ok(
                SiteView {
                    posts: sort_by_date(ps),
                    index: index_page(index_template, sort_by_date(ps)),
                },
            )
        },
    }
}

pub open spec fn site_view(r: Result<Site, SiteError>) -> Result<SiteView, SiteError> {
    match r {
        Ok(site) => Ok(SiteView { posts: views(site.posts@), index: site.index@ }),
        Err(e) => Err(e),
    }
}

/// Builds the site from the source documents in discovery order. Any failing
/// document, or an index template without a body marker, fails the whole batch.
pub fn build_site(
    docs: &Vec<SourceDoc>,
    root: &str,
    post_template: &str,
    index_template: &str,
    options: SyntaxOptions,
) -> (r: Result<Site, SiteError>)
    ensures
        site_view(r) == site_of(
            doc_views(docs@),
            root@,
            post_template@,
            index_template@,
            options,
        ),
{
    let ghost dv = doc_views(docs@);
    let mut rendered: Vec<Post> = Vec::new();
    let mut i: usize = 0;
    assert(dv.subrange(0, 0) =~= Seq::<(Seq<char>, Seq<char>)>::empty());
    assert(views(rendered@) =~= Seq::<PostView>::empty());
    while i < docs.len()
        invariant
            dv == doc_views(docs@),
            i <= docs.len(),
            render_all(dv.subrange(0, i as int), root@, post_template@, options) == Ok::<
                Seq<PostView>,
                SiteError,
            >(views(rendered@)),
        decreases docs.len() - i,
    {
        let doc = &docs[i];
        proof {
            assert(dv[i as int] == doc@);
            assert(dv.subrange(0, i + 1).drop_last() =~= dv.subrange(0, i as int));
        }
        match render_post(doc.path.as_str(), root, doc.content.as_str(), post_template, options) {
            Ok(p) => {
                let ghost before = rendered@;
                rendered.push(p);
                assert(views(rendered@) =~= views(before).push(p@));
            },
            Err(e) => {
                proof {
                    lemma_render_all_err(dv, i + 1, root@, post_template@, options);
                }
                return Err(e);
            },
        }
        i = i + 1;
    }
    assert(dv.subrange(0, i as int) =~= dv);
    let posts = sort_posts(rendered);
    match build_index(&posts, index_template) {
        Ok(index) => Ok(Site { posts, index }),
        Err(e) => Err(e),
    }
}


/// A batch run twice on the same documents and templates gives the same
/// outcome: the same error, or the same pages and the same index, byte for byte.
pub proof fn lemma_batch_idempotent(
    docs: Seq<(Seq<char>, Seq<char>)>,
    root: Seq<char>,
    post_template: Seq<char>,
    index_template: Seq<char>,
    options: SyntaxOptions,
    first: Result<SiteView, SiteError>,
    second: Result<SiteView, SiteError>,
)
    requires
        first == site_of(docs, root, post_template, index_template, options),
        second == site_of(docs, root, post_template, index_template, options),
    ensures
        first == second,
        first is Ok ==> first->Ok_0.index == second->Ok_0.index && first->Ok_0.posts.len()
            == second->Ok_0.posts.len() && forall|i: int|
            0 <= i < first->Ok_0.posts.len() ==> #[trigger] first->Ok_0.posts[i].html
                == second->Ok_0.posts[i].html,
{
}

/// A built site lists its posts newest first, and its index shows their
/// entries in that same order.
pub proof fn lemma_site_newest_first(
    docs: Seq<(Seq<char>, Seq<char>)>,
    root: Seq<char>,
    post_template: Seq<char>,
    index_template: Seq<char>,
    options: SyntaxOptions,
)
    requires
        site_of(docs, root, post_template, index_template, options) is Ok,
    ensures
        ({
            let site = site_of(docs, root, post_template, index_template, options)->Ok_0;
            newest_first(site.posts) && site.index == index_page(index_template, site.posts)
        }),
{
    lemma_sort_newest_first(render_all(docs, root, post_template, options)->Ok_0);
}

/// Posts of the same date appear in a built site, and so in its index, in the
/// order in which their documents were discovered; no post is lost or added.
pub proof fn lemma_site_stable(
    docs: Seq<(Seq<char>, Seq<char>)>,
    root: Seq<char>,
    post_template: Seq<char>,
    index_template: Seq<char>,
    options: SyntaxOptions,
    d: Date,
)
    requires
        site_of(docs, root, post_template, index_template, options) is Ok,
    ensures
        render_all(docs, root, post_template, options) is Ok,
        site_of(docs, root, post_template, index_template, options)->Ok_0.posts.filter(dated(d))
            == render_all(docs, root, post_template, options)->Ok_0.filter(dated(d)),
{
    lemma_sort_stable(render_all(docs, root, post_template, options)->Ok_0, d);
}

/// A document whose text does not give a title and a date fails the whole
/// batch, so that nothing is built; when every document before it renders,
/// the failure is a metadata error.
pub proof fn lemma_missing_metadata_fails(
    docs: Seq<(Seq<char>, Seq<char>)>,
    root: Seq<char>,
    post_template: Seq<char>,
    index_template: Seq<char>,
    options: SyntaxOptions,
    i: int,
)
    requires
        0 <= i < docs.len(),
        metadata_of(docs[i].1, options) is Err,
    ensures
        site_of(docs, root, post_template, index_template, options) is Err,
        render_all(docs.subrange(0, i), root, post_template, options) is Ok ==> site_of(
            docs,
            root,
            post_template,
            index_template,
            options,
        ) == Err::<SiteView, SiteError>(SiteError::DocumentMetadata),
{
    let pre = docs.subrange(0, i + 1);
    assert(pre.drop_last() =~= docs.subrange(0, i));
    assert(pre.last() == docs[i]);
    assert(render_all(pre, root, post_template, options) is Err) by {
        lemma_metadata_errors_are_metadata(docs[i].1, options);
    }
    lemma_render_all_err(docs, i + 1, root, post_template, options);
    if render_all(docs.subrange(0, i), root, post_template, options) is Ok {
        lemma_metadata_errors_are_metadata(docs[i].1, options);
    }
}

proof fn lemma_metadata_errors_are_metadata(source: Seq<char>, options: SyntaxOptions)
    ensures
        metadata_of(source, options) is Err ==> metadata_of(source, options) == Err::<
            (Seq<char>, Date),
            SiteError,
        >(SiteError::DocumentMetadata),
{
}

/// A document with no plain text at all has no title and no date.
pub proof fn lemma_no_text_no_metadata(source: Seq<char>, options: SyntaxOptions)
    requires
        forall|k: int| 0 <= k < events_of(source, options).len() ==> (#[trigger] events_of(source, options)[k]) is None,
    ensures
        metadata_of(source, options) == Err::<(Seq<char>, Date), SiteError>(SiteError::DocumentMetadata),
{
    lemma_no_text_runs(events_of(source, options));
}

proof fn lemma_no_text_runs(events: Seq<Option<Seq<char>>>)
    requires
        forall|k: int| 0 <= k < events.len() ==> (#[trigger] events[k]) is None,
    ensures
        text_runs(events).len() == 0,
    decreases events.len(),
{
    if events.len() > 0 {
        lemma_no_text_runs(events.drop_last());
    }
}

} // verus!
