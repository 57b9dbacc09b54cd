//! Rendering one output line from a template with the placeholders `%title`
//! and `%url`.
use vstd::prelude::*;
use crate::text::{chars_of, string_of};
use crate::title::opt_view;

verus! {

/// The title put in place of a missing one, unless such lines are skipped.
pub const NO_TITLE: &'static str = "@@@ NO TITLE @@@";

/// A character that can continue a placeholder's name: an ASCII letter or
/// digit, or `_`.
pub open spec fn is_word(c: char) -> bool {
    ('a' <= c && c <= 'z') || ('A' <= c && c <= 'Z') || ('0' <= c && c <= '9') || c == '_'
}

pub open spec fn title_token() -> Seq<char> {
    seq!['%', 't', 'i', 't', 'l', 'e']
}

pub open spec fn url_token() -> Seq<char> {
    seq!['%', 'u', 'r', 'l']
}

/// Whether `t` starts with the placeholder `tok` as a whole token: `tok` is
/// not followed by a word character (so `%titles` holds no placeholder).
pub open spec fn starts_token(t: Seq<char>, tok: Seq<char>) -> bool {
    tok.len() <= t.len() && t.subrange(0, tok.len() as int) == tok && (tok.len() == t.len()
        || !is_word(t[tok.len() as int]))
}

/// The template `t` with each `%title` token replaced by `title` and each
/// `%url` token by `url`, scanning from the left; all else is kept as it is.
pub open spec fn render(t: Seq<char>, title: Seq<char>, url: Seq<char>) -> Seq<char>
    decreases t.len(),
{
    if t.len() == 0 {
        Seq::empty()
    } else if starts_token(t, title_token()) {
        title + render(t.skip(6), title, url)
    } else if starts_token(t, url_token()) {
        url + render(t.skip(4), title, url)
    } else {
        seq![t[0]] + render(t.drop_first(), title, url)
    }
}

/// The line written for one page: the template rendered with its title; where
/// it has none, with the fallback title, or no line at all when such pages are
/// skipped.
pub open spec fn line_for(
    t: Seq<char>,
    title: Option<Seq<char>>,
    url: Seq<char>,
    skip_when_no_title: bool,
) -> Option<Seq<char>> {
    match title {
        Some(x) => Some(render(t, x, url)),
        None => if skip_when_no_title {
            None
        } else {
            Some(render(t, NO_TITLE@, url))
        },
    }
}

fn is_word_char(c: char) -> (r: bool)
    ensures
        r == is_word(c),
{
    ('a' <= c && c <= 'z') || ('A' <= c && c <= 'Z') || ('0' <= c && c <= '9') || c == '_'
}

/// Whether `cs[i..]` starts with the token `tok`.
fn token_at(cs: &Vec<char>, i: usize, tok: &Vec<char>) -> (r: bool)
    requires
        i <= cs@.len(),
    ensures
        r == starts_token(cs@.skip(i as int), tok@),
{
    let n = cs.len();
    if tok.len() > n - i {
        return false;
    }
    let mut k: usize = 0;
    while k < tok.len()
        invariant
            i <= n == cs@.len(),
            tok@.len() <= n - i,
            k <= tok@.len(),
            forall|m: int| 0 <= m < k ==> cs@[i + m] == tok@[m],
        decreases tok@.len() - k,
    {
        if cs[i + k] != tok[k] {
            assert(cs@.skip(i as int).subrange(0, tok@.len() as int)[k as int] != tok@[k as int]);
            return false;
        }
        k = k + 1;
    }
    assert(cs@.skip(i as int).subrange(0, tok@.len() as int) =~= tok@);
    i + tok.len() == n || !is_word_char(cs[i + tok.len()])
}

fn append_chars(out: &mut Vec<char>, cs: &Vec<char>)
    ensures
        final(out)@ == old(out)@ + cs@,
{
    let mut k: usize = 0;
    while k < cs.len()
        invariant
            k <= cs@.len(),
            out@ == old(out)@ + cs@.subrange(0, k as int),
        decreases cs@.len() - k,
    {
        assert(cs@.subrange(0, k + 1) =~= cs@.subrange(0, k as int).push(cs@[k as int]));
        out.push(cs[k]);
        k = k + 1;
    }
    assert(cs@.subrange(0, cs@.len() as int) =~= cs@);
}

/// Renders `template` with `title` and `url` in place of the `%title` and
/// `%url` tokens.
pub fn process_template(template: &str, title: &str, url: &str) -> (r: String)
    ensures
        r@ == render(template@, title@, url@),
{
    let cs = chars_of(template);
    let title_cs = chars_of(title);
    let url_cs = chars_of(url);
    let title_tok = chars_of("%title");
    let url_tok = chars_of("%url");
    proof {
        reveal_strlit("%title");
        reveal_strlit("%url");
        assert(title_tok@ =~= title_token());
        assert(url_tok@ =~= url_token());
    }
    let n = cs.len();
    let mut out: Vec<char> = Vec::new();
    let mut i: usize = 0;
    assert(cs@.skip(0) =~= cs@);
    assert(out@ + render(cs@, title@, url@) =~= render(cs@, title@, url@));
    while i < n
        invariant
            n == cs@.len(),
            i <= n,
            title_tok@ == title_token(),
            url_tok@ == url_token(),
            title_cs@ == title@,
            url_cs@ == url@,
            render(cs@, title@, url@) == out@ + render(cs@.skip(i as int), title@, url@),
        decreases n - i,
    {
        let ghost rest = cs@.skip(i as int);
        if token_at(&cs, i, &title_tok) {
            assert(rest.skip(6) =~= cs@.skip(i + 6));
            append_chars(&mut out, &title_cs);
            i = i + 6;
        } else if token_at(&cs, i, &url_tok) {
            assert(rest.skip(4) =~= cs@.skip(i + 4));
            append_chars(&mut out, &url_cs);
            i = i + 4;
        } else {
            assert(rest.drop_first() =~= cs@.skip(i + 1));
            out.push(cs[i]);
            i = i + 1;
        }
    }
    assert(cs@ =~= template@);
    string_of(&out)
}

/// The line to write for a page with the given title, if any: see
/// `line_for`.
pub fn render_line(
    template: &str,
    maybe_title: &Option<String>,
    url: &str,
    skip_when_no_title: bool,
) -> (r: Option<String>)
    ensures
        opt_view(r) == line_for(template@, opt_view(*maybe_title), url@, skip_when_no_title),
{
    match maybe_title {
        Some(title) => Some(process_template(template, title.as_str(), url)),
        None => if skip_when_no_title {
            None
        } else {
            Some(process_template(template, NO_TITLE, url))
        },
    }
}

} // verus!
