//! Finding a page's title: the text of its first `title` element.
use vstd::prelude::*;
use crate::text::{chars_of, is_space, lemma_trim_ends, string_of, trim, trim_bounds, views_of};

verus! {

/// The text nodes, in tree order, of the first element of the HTML fragment
/// `html` that the CSS selector `selector` matches, taking elements in the
/// order the parser created them; `None` where no element matches (or the
/// selector cannot be read).
pub uninterp spec fn first_match_texts(html: Seq<char>, selector: Seq<char>) -> Option<
    Seq<Seq<char>>,
>;

/// The character sequences of an optional list of strings.
pub open spec fn opt_views(r: Option<Vec<String>>) -> Option<Seq<Seq<char>>> {
    match r {
        Some(v) => Some(views_of(v@)),
        None => None,
    }
}

/// The character sequence of an optional string.
pub open spec fn opt_view(r: Option<String>) -> Option<Seq<char>> {
    match r {
        Some(s) => Some(s@),
        None => None,
    }
}

/// The selector that picks the title element.
pub open spec fn title_selector() -> Seq<char> {
    seq!['t', 'i', 't', 'l', 'e']
}

/// The nodes of `ns`, each trimmed, joined with one space between two nodes;
/// nodes that trim to nothing are left out.
pub open spec fn joined(ns: Seq<Seq<char>>) -> Seq<char>
    decreases ns.len(),
{
    if ns.len() == 0 {
        Seq::empty()
    } else {
        let r = joined(ns.drop_last());
        let t = trim(ns.last());
        if t.len() == 0 {
            r
        } else if r.len() == 0 {
            t
        } else {
            r.push(' ') + t
        }
    }
}

proof fn lemma_joined_ends(ns: Seq<Seq<char>>)
    ensures
        joined(ns).len() > 0 ==> !is_space(joined(ns)[0]) && !is_space(joined(ns).last()),
    decreases ns.len(),
{
    if ns.len() > 0 {
        lemma_joined_ends(ns.drop_last());
        lemma_trim_ends(ns.last());
        let r = joined(ns.drop_last());
        let t = trim(ns.last());
        if t.len() > 0 && r.len() > 0 {
            assert((r.push(' ') + t)[0] == r[0]);
            assert((r.push(' ') + t).last() == t.last());
        }
    }
}

/// A title that is found is never blank, and it neither starts nor ends with
/// whitespace.
pub proof fn lemma_title_is_trimmed(texts: Option<Seq<Seq<char>>>)
    ensures
        title_of(texts) matches Some(t) ==> t.len() > 0 && !is_space(t[0]) && !is_space(
            t.last(),
        ),
{
    if let Some(ns) = texts {
        lemma_joined_ends(ns);
    }
}

/// The title given by the text nodes of a title element: their joined text,
/// or `None` where there is no element or the joined text is empty.
pub open spec fn title_of(texts: Option<Seq<Seq<char>>>) -> Option<Seq<char>> {
    match texts {
        None => None,
        Some(ns) => if joined(ns).len() == 0 {
            None
        } else {
            Some(joined(ns))
        },
    }
}

/// The title of the HTML text `html`.
pub open spec fn extract_title(html: Seq<char>) -> Option<Seq<char>> {
    title_of(first_match_texts(html, title_selector()))
}

/// Relies on scraper: `Html::parse_fragment` parses any text leniently,
/// `Selector::parse` reads the selector, `Html::select(..).next()` is the first
/// match in the order the parser created the elements, and `ElementRef::text`
/// yields its text nodes in tree order.
#[verifier::external_body]
fn select_first_texts(html: &str, selector: &str) -> (r: Option<Vec<String>>)
    ensures
        opt_views(r) == first_match_texts(html@, selector@),
{
    let selector = scraper::Selector::parse(selector).ok()?;
    let fragment = scraper::Html::parse_fragment(html);
    let first = fragment.select(&selector).next()?;
    Some(first.text().map(String::from).collect())
}

/// Joins text nodes: each trimmed, with a single space between two nodes,
/// leaving out the nodes that are blank.
pub fn join_text(nodes: &Vec<String>) -> (r: String)
    ensures
        r@ == joined(views_of(nodes@)),
{
    let ghost ns = views_of(nodes@);
    let mut out: Vec<char> = Vec::new();
    let mut k: usize = 0;
    while k < nodes.len()
        invariant
            k <= nodes@.len(),
            ns == views_of(nodes@),
            out@ == joined(ns.subrange(0, k as int)),
        decreases nodes@.len() - k,
    {
        let cs = chars_of(nodes[k].as_str());
        let (a, b) = trim_bounds(&cs, 0, cs.len());
        assert(cs@.subrange(0, cs@.len() as int) =~= ns[k as int]);
        let ghost before = out@;
        let sep = a < b && out.len() > 0;
        if sep {
            out.push(' ');
        }
        let mut j: usize = a;
        while j < b
            invariant
                a <= j <= b <= cs@.len(),
                out@ == (if sep {
                    before.push(' ')
                } else {
                    before
                }) + cs@.subrange(a as int, j as int),
            decreases b - j,
        {
            assert(cs@.subrange(a as int, j + 1) =~= cs@.subrange(a as int, j as int).push(
                cs@[j as int],
            ));
            out.push(cs[j]);
            j = j + 1;
        }
        proof {
            let next = ns.subrange(0, k + 1);
            assert(next.drop_last() =~= ns.subrange(0, k as int));
            assert(next.last() == ns[k as int]);
            if a == b {
                assert(out@ =~= before);
            } else if before.len() == 0 {
                assert(out@ =~= trim(ns[k as int]));
            } else {
                assert(out@ =~= before.push(' ') + trim(ns[k as int]));
            }
        }
        k = k + 1;
    }
    assert(ns.subrange(0, nodes@.len() as int) =~= ns);
    string_of(&out)
}

/// The title given by the text nodes of the first title element, if any:
/// `None` where there is no element or its joined text is empty.
pub fn title_from_texts(texts: Option<Vec<String>>) -> (r: Option<String>)
    ensures
        opt_view(r) == title_of(opt_views(texts)),
{
    match texts {
        None => None,
        Some(nodes) => {
            let s = join_text(&nodes);
            if s.as_str().unicode_len() == 0 {
                None
            } else {
                Some(s)
            }
        },
    }
}

/// Parses `html` leniently and returns the text of its first `title`
/// element, if that text is not empty.
pub fn parse_html_and_get_title(html: &str) -> (r: Option<String>)
    ensures
        opt_view(r) == extract_title(html@),
{
    let selector = "title";
    proof {
        reveal_strlit("title");
        assert(selector@ =~= title_selector());
    }
    title_from_texts(select_first_texts(html, selector))
}

/// Extraction is pure: the same HTML text always gives the same title.
pub proof fn lemma_extraction_is_pure(a: Seq<char>, b: Seq<char>)
    requires
        a == b,
    ensures
        extract_title(a) == extract_title(b),
{
}

} // verus!
