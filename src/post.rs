//! One post: its slug, its metadata and its page rendered through the post template.

use crate::date::Date;
use crate::error::SiteError;
use crate::markdown::{extract_metadata, html_of, metadata_of, render_markdown, SyntaxOptions};
use crate::text::{
    find, head_of, index_of, lemma_index_from, occurs_at, replace, replace_all, split_once, tail_of,
};
use vstd::prelude::*;

verus! {

/// A rendered post. Built once and never changed afterwards.
#[derive(Debug)]
pub struct Post {
    /// The source path relative to the source root, without its extension.
    pub slug: String,
    pub title: String,
    pub date: Date,
    /// The whole page: template head, rendered markdown, template tail.
    pub html: String,
}

pub struct PostView {
    pub slug: Seq<char>,
    pub title: Seq<char>,
    pub date: Date,
    pub html: Seq<char>,
}

impl View for Post {
    type V = PostView;

    open spec fn view(&self) -> PostView {
        PostView { slug: self.slug@, title: self.title@, date: self.date, html: self.html@ }
    }
}

pub open spec fn title_marker() -> Seq<char> {
    seq!['{', 't', 'i', 't', 'l', 'e', '}']
}

pub open spec fn body_marker() -> Seq<char> {
    seq!['{', 'b', 'o', 'd', 'y', '}']
}

/// Index of the last `.` in `s`, or -1 when there is none.
pub open spec fn last_dot(s: Seq<char>) -> int
    decreases s.len(),
{
    if s.len() == 0 {
        -1
    } else if s.last() == '.' {
        s.len() - 1
    } else {
        last_dot(s.drop_last())
    }
}

proof fn lemma_last_dot(s: Seq<char>)
    ensures
        -1 <= last_dot(s) < s.len(),
    decreases s.len(),
{
    if s.len() > 0 {
        lemma_last_dot(s.drop_last());
    }
}

/// `path` without the leading `root`, when it starts with it.
pub open spec fn strip_root(path: Seq<char>, root: Seq<char>) -> Seq<char> {
    if root.len() <= path.len() && path.subrange(0, root.len() as int) == root {
        path.subrange(root.len() as int, path.len() as int)
    } else {
        path
    }
}

/// The slug of a source file: its path below `root`, without the extension
/// (what follows the last `.`).
pub open spec fn slug_of(path: Seq<char>, root: Seq<char>) -> Seq<char> {
    let rel = strip_root(path, root);
    if last_dot(rel) >= 0 {
        rel.subrange(0, last_dot(rel))
    } else {
        rel
    }
}

pub open spec fn posts_dir() -> Seq<char> {
    seq!['p', 'o', 's', 't', 's', '/']
}

pub open spec fn html_extension() -> Seq<char> {
    seq!['.', 'h', 't', 'm', 'l']
}

/// Where the page of a post is written, relative to the site root.
pub open spec fn output_path_of(slug: Seq<char>) -> Seq<char> {
    posts_dir() + slug + html_extension()
}

/// The page of a post: the template with the title put in, split at its first
/// body marker around the rendered markdown.
pub open spec fn page_of(template: Seq<char>, title: Seq<char>, body: Seq<char>) -> Seq<char> {
    let filled = replace_all(template, title_marker(), title);
    head_of(filled, body_marker()) + body + tail_of(filled, body_marker())
}

/// The post that a source document gives, or why it gives none. Metadata
/// errors come first; a template without a title marker or without a body
/// marker is a configuration error.
pub open spec fn post_of(
    path: Seq<char>,
    root: Seq<char>,
    source: Seq<char>,
    template: Seq<char>,
    options: SyntaxOptions,
) -> Result<PostView, SiteError> {
    match metadata_of(source, options) {
        Err(e) => Err(e),
        Ok((title, date)) => {
            if index_of(template, title_marker()) < 0 || index_of(template, body_marker()) < 0 {
                Err(SiteError::TemplateConfiguration)
            } else {
                Ok(
                    PostView {
                        slug: slug_of(path, root),
                        title,
                        date,
                        html: page_of(template, title, html_of(source, options)),
                    },
                )
            }
        },
    }
}

pub open spec fn post_view(r: Result<Post, SiteError>) -> Result<PostView, SiteError> {
    match r {
        Ok(p) => Ok(p@),
        Err(e) => Err(e),
    }
}

/// Index of the last `.` in `s`, or `n` when there is none.
fn find_last_dot(s: &str, n: usize) -> (r: usize)
    requires
        n == s@.len(),
    ensures
        r == (if last_dot(s@) >= 0 { last_dot(s@) as usize } else { n }),
{
    let mut i: usize = n;
    assert(s@.subrange(0, n as int) =~= s@);
    while i > 0
        invariant
            n == s@.len(),
            i <= n,
            last_dot(s@) == last_dot(s@.subrange(0, i as int)),
        decreases i,
    {
        proof {
            assert(s@.subrange(0, i as int).drop_last() =~= s@.subrange(0, i - 1));
        }
        if s.get_char(i - 1) == '.' {
            return i - 1;
        }
        i = i - 1;
    }
    n
}

/// The slug of the source file at `path` below the source directory `root`.
pub fn slug_from_path(path: &str, root: &str) -> (r: String)
    ensures
        r@ == slug_of(path@, root@),
{
    proof {
        assert(path@.subrange(0, path@.len() as int) =~= path@);
    }
    let n = path.unicode_len();
    let k = root.unicode_len();
    let mut start: usize = 0;
    if k <= n {
        let mut same = true;
        let mut i: usize = 0;
        while i < k
            invariant
                k == root@.len(),
                k <= n == path@.len(),
                i <= k,
                same == (forall|t: int| 0 <= t < i ==> path@[t] == root@[t]),
            decreases k - i,
        {
            if path.get_char(i) != root.get_char(i) {
                same = false;
            }
            i = i + 1;
        }
        if same {
            start = k;
            assert(path@.subrange(0, k as int) =~= root@);
        } else {
            assert(path@.subrange(0, k as int) != root@) by {
                let t = choose|t: int| 0 <= t < k && path@[t] != root@[t];
                assert(path@.subrange(0, k as int)[t] == path@[t]);
            }
        }
    }
    let rel = path.substring_char(start, n);
    assert(rel@ == strip_root(path@, root@));
    let m = rel.unicode_len();
    let d = find_last_dot(rel, m);
    proof {
        lemma_last_dot(rel@);
        assert(rel@.subrange(0, m as int) =~= rel@);
    }
    String::from_str(rel.substring_char(0, d))
}

/// Where the page of the post with this slug is written: `posts/<slug>.html`.
pub fn output_path(slug: &str) -> (r: String)
    ensures
        r@ == output_path_of(slug@),
{
    proof {
        reveal_strlit("posts/");
        reveal_strlit(".html");
    }
    let mut r = String::from_str("posts/");
    r.append(slug);
    r.append(".html");
    assert(r@ =~= output_path_of(slug@));
    r
}


/// Replacing title markers leaves a leading run of characters without `{` as it is.
proof fn lemma_replace_keeps_prefix(s: Seq<char>, rep: Seq<char>, k: int)
    requires
        0 <= k <= s.len(),
        forall|t: int| 0 <= t < k ==> s[t] != '{',
    ensures
        replace_all(s, title_marker(), rep).len() >= k,
        replace_all(s, title_marker(), rep).subrange(0, k) == s.subrange(0, k),
    decreases s.len(),
{
    let r = replace_all(s, title_marker(), rep);
    if k > 0 && s.len() >= title_marker().len() {
        assert(s.subrange(0, title_marker().len() as int)[0] != title_marker()[0]);
        let t = s.drop_first();
        lemma_replace_keeps_prefix(t, rep, k - 1);
        let rt = replace_all(t, title_marker(), rep);
        assert(r == seq![s[0]] + rt);
        assert forall|x: int| 0 <= x < k implies r.subrange(0, k)[x] == s.subrange(0, k)[x] by {
            if x > 0 {
                assert(rt.subrange(0, k - 1)[x - 1] == t.subrange(0, k - 1)[x - 1]);
            }
        }
        assert(r.subrange(0, k) =~= s.subrange(0, k));
    }
}

/// A body marker of a template is still there once the title markers are
/// replaced: the two markers cannot overlap.
proof fn lemma_body_marker_survives(s: Seq<char>, rep: Seq<char>, i: int) -> (j: int)
    requires
        occurs_at(s, body_marker(), i),
    ensures
        occurs_at(replace_all(s, title_marker(), rep), body_marker(), j),
    decreases s.len(),
{
    let p = title_marker().len() as int;
    let b = body_marker();
    let r = replace_all(s, title_marker(), rep);
    assert(s.subrange(i, i + 6) == b);
    assert(s[i] == '{') by {
        assert(s.subrange(i, i + 6)[0] == s[i]);
    }
    if s.len() < p {
        i
    } else if s.subrange(0, p) == title_marker() {
        if i < p {
            assert(s.subrange(0, p)[i] == s[i]);
            assert(false);
        }
        let t = s.subrange(p, s.len() as int);
        assert(t.subrange(i - p, i - p + 6) =~= s.subrange(i, i + 6));
        let jt = lemma_body_marker_survives(t, rep, i - p);
        let rt = replace_all(t, title_marker(), rep);
        assert(r == rep + rt);
        assert(r.subrange(rep.len() + jt, rep.len() + jt + 6) =~= rt.subrange(jt, jt + 6));
        rep.len() + jt
    } else {
        let t = s.drop_first();
        let rt = replace_all(t, title_marker(), rep);
        assert(r == seq![s[0]] + rt);
        if i == 0 {
            assert forall|x: int| 0 <= x < 5 implies t[x] != '{' by {
                assert(t[x] == s.subrange(0, 6)[x + 1]);
            }
            lemma_replace_keeps_prefix(t, rep, 5);
            assert forall|x: int| 0 <= x < 6 implies r.subrange(0, 6)[x] == b[x] by {
                assert(s.subrange(0, 6)[x] == s[x]);
                if x > 0 {
                    assert(rt.subrange(0, 5)[x - 1] == t.subrange(0, 5)[x - 1]);
                }
            }
            assert(r.subrange(0, 6) =~= b);
            0
        } else {
            assert(t.subrange(i - 1, i + 5) =~= s.subrange(i, i + 6));
            let jt = lemma_body_marker_survives(t, rep, i - 1);
            assert(r.subrange(jt + 1, jt + 7) =~= rt.subrange(jt, jt + 6));
            jt + 1
        }
    }
}

/// Puts a title and a rendered body into a post template: every title marker
/// becomes the title, then the body goes in at the first body marker of the
/// result. A template without a title marker or without a body marker is a
/// configuration error.
pub fn fill_post_template(template: &str, title: &str, body: &str) -> (r: Result<String, SiteError>)
    ensures
        match r {
            Ok(h) => index_of(template@, title_marker()) >= 0 && index_of(template@, body_marker())
                >= 0 && h@ == page_of(template@, title@, body@),
            Err(e) => e == SiteError::TemplateConfiguration && (index_of(template@, title_marker())
                < 0 || index_of(template@, body_marker()) < 0),
        },
{
    proof {
        reveal_strlit("{title}");
        reveal_strlit("{body}");
    }
    let title_mark = "{title}";
    let body_mark = "{body}";
    assert(title_mark@ =~= title_marker());
    assert(body_mark@ =~= body_marker());
    if find(template, title_mark).is_none() {
        return Err(SiteError::TemplateConfiguration);
    }
    if find(template, body_mark).is_none() {
        return Err(SiteError::TemplateConfiguration);
    }
    let filled = replace(template, title_mark, title);
    proof {
        lemma_index_from(template@, body_marker(), 0);
        let j = lemma_body_marker_survives(template@, title@, index_of(template@, body_marker()));
        lemma_index_from(filled@, body_marker(), 0);
    }
    match split_once(filled.as_str(), body_mark) {
        None => Err(SiteError::TemplateConfiguration),
        Some((head, tail)) => {
            let mut html = head;
            html.append(body);
            html.append(tail.as_str());
            Ok(html)
        },
    }
}

/// Renders one source document through the post template: the page, the
/// slug from `path` below `root`, and the title and date from the text.
pub fn render_post(
    path: &str,
    root: &str,
    source: &str,
    template: &str,
    options: SyntaxOptions,
) -> (r: Result<Post, SiteError>)
    ensures
        post_view(r) == post_of(path@, root@, source@, template@, options),
{
    let (title, date) = match extract_metadata(source, options) {
        Ok(m) => m,
        Err(e) => {
            return Err(e);
        },
    };
    let mut body = String::new();
    render_markdown(&mut body, source, options);
    assert(body@ =~= html_of(source@, options));
    let html = match fill_post_template(template, title.as_str(), body.as_str()) {
        Ok(h) => h,
        Err(e) => {
            return Err(e);
        },
    };
    let slug = slug_from_path(path, root);
    Ok(Post { slug, title, date, html })
}

} // verus!
