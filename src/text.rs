//! Plain-text handling: whitespace, trimming, and the list of entries read
//! from an input text, one per line.
use vstd::prelude::*;
use vstd::std_specs::iter::IteratorSpec;

verus! {

/// Whether `c` is a Unicode `White_Space` character (what `char::is_whitespace`
/// tests).
pub open spec fn is_space(c: char) -> bool {
    ('\u{9}' <= c && c <= '\u{d}') || c == ' ' || c == '\u{85}' || c == '\u{a0}' || c
        == '\u{1680}' || ('\u{2000}' <= c && c <= '\u{200a}') || c == '\u{2028}' || c
        == '\u{2029}' || c == '\u{202f}' || c == '\u{205f}' || c == '\u{3000}'
}

/// `s` without its leading whitespace.
pub open spec fn trim_start(s: Seq<char>) -> Seq<char>
    decreases s.len(),
{
    if s.len() > 0 && is_space(s[0]) {
        trim_start(s.drop_first())
    } else {
        s
    }
}

/// `s` without its trailing whitespace.
pub open spec fn trim_end(s: Seq<char>) -> Seq<char>
    decreases s.len(),
{
    if s.len() > 0 && is_space(s.last()) {
        trim_end(s.drop_last())
    } else {
        s
    }
}

/// `s` without leading and trailing whitespace.
pub open spec fn trim(s: Seq<char>) -> Seq<char> {
    trim_end(trim_start(s))
}

/// The lines of `s`: the pieces between line feeds. A text with `k` line
/// feeds has `k + 1` pieces.
pub open spec fn split_lines(s: Seq<char>) -> Seq<Seq<char>>
    decreases s.len(),
{
    if s.len() == 0 {
        seq![Seq::empty()]
    } else {
        let p = split_lines(s.drop_last());
        if s.last() == '\n' {
            p.push(Seq::empty())
        } else {
            p.update(p.len() - 1, p.last().push(s.last()))
        }
    }
}

/// The trimmed lines of `lines` that are not empty after trimming, in order.
pub open spec fn keep_non_empty(lines: Seq<Seq<char>>) -> Seq<Seq<char>>
    decreases lines.len(),
{
    if lines.len() == 0 {
        Seq::empty()
    } else {
        let rest = keep_non_empty(lines.drop_last());
        let t = trim(lines.last());
        if t.len() > 0 {
            rest.push(t)
        } else {
            rest
        }
    }
}

/// The entries of an input text: each line trimmed, blank lines left out.
/// (A carriage return before a line feed is whitespace, so it is trimmed too.)
pub open spec fn entries_of(s: Seq<char>) -> Seq<Seq<char>> {
    keep_non_empty(split_lines(s))
}

/// The character sequences of a sequence of strings.
pub open spec fn views_of(v: Seq<String>) -> Seq<Seq<char>> {
    v.map_values(|s: String| s@)
}

proof fn lemma_trim_start_first(s: Seq<char>)
    ensures
        trim_start(s).len() > 0 ==> !is_space(trim_start(s)[0]),
    decreases s.len(),
{
    if s.len() > 0 && is_space(s[0]) {
        lemma_trim_start_first(s.drop_first());
    }
}

proof fn lemma_trim_end_prefix(s: Seq<char>)
    ensures
        trim_end(s).len() <= s.len(),
        trim_end(s) == s.subrange(0, trim_end(s).len() as int),
        trim_end(s).len() > 0 ==> !is_space(trim_end(s).last()),
    decreases s.len(),
{
    if s.len() > 0 && is_space(s.last()) {
        lemma_trim_end_prefix(s.drop_last());
        assert(s.drop_last().subrange(0, trim_end(s).len() as int) =~= s.subrange(
            0,
            trim_end(s).len() as int,
        ));
    } else {
        assert(s.subrange(0, s.len() as int) =~= s);
    }
}

/// A trimmed text that is not empty starts and ends with a character that is
/// not whitespace.
pub proof fn lemma_trim_ends(s: Seq<char>)
    ensures
        trim(s).len() > 0 ==> !is_space(trim(s)[0]) && !is_space(trim(s).last()),
{
    lemma_trim_start_first(s);
    lemma_trim_end_prefix(trim_start(s));
    if trim(s).len() > 0 {
        assert(trim(s)[0] == trim_start(s)[0]);
    }
}

proof fn lemma_split_nonempty(s: Seq<char>)
    ensures
        split_lines(s).len() >= 1,
    decreases s.len(),
{
    if s.len() > 0 {
        lemma_split_nonempty(s.drop_last());
    }
}

/// A text without line feeds is one line.
proof fn lemma_split_single(l: Seq<char>)
    requires
        !l.contains('\n'),
    ensures
        split_lines(l) == seq![l],
    decreases l.len(),
{
    if l.len() > 0 {
        assert(!l.drop_last().contains('\n')) by {
            if l.drop_last().contains('\n') {
                let k = choose|k: int| 0 <= k < l.len() - 1 && l.drop_last()[k] == '\n';
                assert(l[k] == '\n');
            }
        }
        lemma_split_single(l.drop_last());
        assert(l.last() != '\n') by {
            assert(l[l.len() - 1] == l.last());
        }
        assert(l.drop_last().push(l.last()) =~= l);
        let p = seq![l.drop_last()];
        assert(p.len() - 1 == 0 && p.last() == l.drop_last());
        assert(p.update(0, l.drop_last().push(l.last())) =~= seq![l]);
    } else {
        assert(l =~= Seq::<char>::empty());
    }
}

/// Splitting at a line feed splits the lines.
proof fn lemma_split_concat(x: Seq<char>, y: Seq<char>)
    ensures
        split_lines(x + seq!['\n'] + y) == split_lines(x) + split_lines(y),
    decreases y.len(),
{
    let z = x + seq!['\n'] + y;
    if y.len() == 0 {
        assert(z.drop_last() =~= x);
        assert(split_lines(x).push(Seq::empty()) =~= split_lines(x) + seq![Seq::<char>::empty()]);
    } else {
        assert(z.drop_last() =~= x + seq!['\n'] + y.drop_last());
        lemma_split_concat(x, y.drop_last());
        lemma_split_nonempty(y.drop_last());
        lemma_split_nonempty(x);
        let a = split_lines(x);
        let b = split_lines(y.drop_last());
        assert(z.last() == y.last());
        if y.last() == '\n' {
            assert((a + b).push(Seq::empty()) =~= a + b.push(Seq::empty()));
        } else {
            assert((a + b).update((a + b).len() - 1, (a + b).last().push(y.last())) =~= a
                + b.update(b.len() - 1, b.last().push(y.last())));
        }
    }
}

proof fn lemma_keep_concat(a: Seq<Seq<char>>, b: Seq<Seq<char>>)
    ensures
        keep_non_empty(a + b) == keep_non_empty(a) + keep_non_empty(b),
    decreases b.len(),
{
    if b.len() == 0 {
        assert(a + b =~= a);
        assert(keep_non_empty(a) + keep_non_empty(b) =~= keep_non_empty(a));
    } else {
        assert((a + b).drop_last() =~= a + b.drop_last());
        lemma_keep_concat(a, b.drop_last());
        let ka = keep_non_empty(a);
        let kb = keep_non_empty(b.drop_last());
        assert((ka + kb).push(trim(b.last())) =~= ka + kb.push(trim(b.last())));
    }
}

proof fn lemma_keep_trimmed(lines: Seq<Seq<char>>)
    ensures
        keep_non_empty(lines).len() <= lines.len(),
        forall|k: int|
            0 <= k < keep_non_empty(lines).len() ==> {
                let e = #[trigger] keep_non_empty(lines)[k];
                e.len() > 0 && !is_space(e[0]) && !is_space(e.last())
            },
    decreases lines.len(),
{
    if lines.len() > 0 {
        lemma_keep_trimmed(lines.drop_last());
        lemma_trim_ends(lines.last());
        let rest = keep_non_empty(lines.drop_last());
        assert forall|k: int| 0 <= k < keep_non_empty(lines).len() implies {
            let e = #[trigger] keep_non_empty(lines)[k];
            e.len() > 0 && !is_space(e[0]) && !is_space(e.last())
        } by {
            if k < rest.len() {
                assert(keep_non_empty(lines)[k] == rest[k]);
            }
        }
    }
}

/// Every entry is non-empty and neither starts nor ends with whitespace, and
/// a text has no more entries than lines.
pub proof fn lemma_entries_are_trimmed(s: Seq<char>)
    ensures
        entries_of(s).len() <= split_lines(s).len(),
        forall|k: int|
            0 <= k < entries_of(s).len() ==> {
                let e = #[trigger] entries_of(s)[k];
                e.len() > 0 && !is_space(e[0]) && !is_space(e.last())
            },
{
    lemma_keep_trimmed(split_lines(s));
}

/// The entries of two texts joined by a line feed are the entries of the
/// first followed by those of the second.
pub proof fn lemma_entries_concat(x: Seq<char>, y: Seq<char>)
    ensures
        entries_of(x + seq!['\n'] + y) == entries_of(x) + entries_of(y),
{
    lemma_split_concat(x, y);
    lemma_keep_concat(split_lines(x), split_lines(y));
}

/// A single line gives its trimmed text as its one entry, or no entry where
/// it is blank.
pub proof fn lemma_entries_of_line(l: Seq<char>)
    requires
        !l.contains('\n'),
    ensures
        entries_of(l) == (if trim(l).len() > 0 {
            seq![trim(l)]
        } else {
            Seq::empty()
        }),
{
    lemma_split_single(l);
    assert(seq![l].drop_last() =~= Seq::<Seq<char>>::empty());
    assert(seq![l].last() == l);
    assert(keep_non_empty(Seq::<Seq<char>>::empty()) == Seq::<Seq<char>>::empty());
    assert(Seq::<Seq<char>>::empty().push(trim(l)) =~= seq![trim(l)]);
}

/// Blank lines are ignored: taking a blank or whitespace-only line out of a
/// text changes neither the entries nor their order.
pub proof fn lemma_blank_line_ignored(x: Seq<char>, w: Seq<char>, y: Seq<char>)
    requires
        !w.contains('\n'),
        trim(w).len() == 0,
    ensures
        entries_of(x + seq!['\n'] + w + seq!['\n'] + y) == entries_of(x + seq!['\n'] + y),
{
    lemma_entries_concat(x, w + seq!['\n'] + y);
    lemma_entries_concat(w, y);
    lemma_entries_of_line(w);
    lemma_entries_concat(x, y);
    assert(x + seq!['\n'] + w + seq!['\n'] + y =~= x + seq!['\n'] + (w + seq!['\n'] + y));
    assert(entries_of(w) + entries_of(y) =~= entries_of(y));
}

/// The characters of `s`, in order.
pub(crate) fn chars_of(s: &str) -> (r: Vec<char>)
    ensures
        r@ == s@,
{
    broadcast use vstd::string::axiom_spec_iter, vstd::string::next_postcondition;

    let mut it = s.chars();
    let mut out: Vec<char> = Vec::new();
    loop
        invariant
            it.obeys_prophetic_iter_laws(),
            it.decrease() is Some,
            out@ + it.remaining() == s@,
        ensures
            out@ == s@,
        decreases it.decrease()->0,
    {
        let ghost before = it.remaining();
        match it.next() {
            Some(c) => {
                assert(out@.push(c) + it.remaining() =~= out@ + before);
                out.push(c);
            },
            None => {
                assert(out@ =~= s@);
                break;
            },
        }
    }
    out
}

/// Relies on `String: FromIterator<&char>`: the string of the characters
/// `cs`, in order.
#[verifier::external_body]
pub(crate) fn string_of(cs: &Vec<char>) -> (r: String)
    ensures
        r@ == cs@,
{
    cs.iter().collect()
}

/// The characters `cs[lo..hi]`.
fn sub_chars(cs: &Vec<char>, lo: usize, hi: usize) -> (r: Vec<char>)
    requires
        lo <= hi <= cs@.len(),
    ensures
        r@ == cs@.subrange(lo as int, hi as int),
{
    let mut out: Vec<char> = Vec::new();
    let mut j: usize = lo;
    while j < hi
        invariant
            lo <= j <= hi <= cs@.len(),
            out@ == cs@.subrange(lo as int, j as int),
        decreases hi - j,
    {
        assert(cs@.subrange(lo as int, j + 1) =~= cs@.subrange(lo as int, j as int).push(cs@[j as int]));
        out.push(cs[j]);
        j = j + 1;
    }
    out
}

/// Whether `c` is whitespace.
pub fn is_space_char(c: char) -> (r: bool)
    ensures
        r == is_space(c),
{
    ('\u{9}' <= c && c <= '\u{d}') || c == ' ' || c == '\u{85}' || c == '\u{a0}' || c
        == '\u{1680}' || ('\u{2000}' <= c && c <= '\u{200a}') || c == '\u{2028}' || c
        == '\u{2029}' || c == '\u{202f}' || c == '\u{205f}' || c == '\u{3000}'
}

/// The bounds of `cs[lo..hi]` trimmed.
pub(crate) fn trim_bounds(cs: &Vec<char>, lo: usize, hi: usize) -> (r: (usize, usize))
    requires
        lo <= hi <= cs@.len(),
    ensures
        lo <= r.0 <= r.1 <= hi,
        cs@.subrange(r.0 as int, r.1 as int) == trim(cs@.subrange(lo as int, hi as int)),
{
    let mut a: usize = lo;
    while a < hi && is_space_char(cs[a])
        invariant
            lo <= a <= hi <= cs@.len(),
            trim_start(cs@.subrange(lo as int, hi as int)) == trim_start(
                cs@.subrange(a as int, hi as int),
            ),
        decreases hi - a,
    {
        assert(cs@.subrange(a as int, hi as int).drop_first() =~= cs@.subrange(
            a + 1,
            hi as int,
        ));
        a = a + 1;
    }
    let mut b: usize = hi;
    while b > a && is_space_char(cs[b - 1])
        invariant
            lo <= a <= b <= hi <= cs@.len(),
            trim_start(cs@.subrange(lo as int, hi as int)) == cs@.subrange(a as int, hi as int),
            trim_end(cs@.subrange(a as int, hi as int)) == trim_end(
                cs@.subrange(a as int, b as int),
            ),
        decreases b - a,
    {
        assert(cs@.subrange(a as int, b as int).drop_last() =~= cs@.subrange(
            a as int,
            b - 1,
        ));
        b = b - 1;
    }
    (a, b)
}

/// The entries of `contents`: its lines, each trimmed of surrounding
/// whitespace, with the lines that are then empty left out. Order is kept
/// and duplicates stay.
pub fn non_empty_lines(contents: &str) -> (r: Vec<String>)
    ensures
        views_of(r@) == entries_of(contents@),
{
    let cs = chars_of(contents);
    let n = cs.len();
    let mut out: Vec<String> = Vec::new();
    let mut start: usize = 0;
    let mut i: usize = 0;
    let ghost mut done: Seq<Seq<char>> = Seq::empty();
    assert(cs@.subrange(0, 0) =~= Seq::<char>::empty());
    assert(seq![Seq::<char>::empty()] =~= done.push(Seq::<char>::empty()));
    while i < n
        invariant
            n == cs@.len(),
            start <= i <= n,
            split_lines(cs@.subrange(0, i as int)) == done.push(
                cs@.subrange(start as int, i as int),
            ),
            views_of(out@) == keep_non_empty(done),
        decreases n - i,
    {
        let ghost prefix = cs@.subrange(0, i + 1);
        assert(prefix.drop_last() =~= cs@.subrange(0, i as int));
        if cs[i] == '\n' {
            let (a, b) = trim_bounds(&cs, start, i);
            let ghost cur = cs@.subrange(start as int, i as int);
            assert(done.push(cur).drop_last() =~= done);
            if a < b {
                let line = string_of(&sub_chars(&cs, a, b));
                proof {
                    assert(views_of(out@.push(line)) =~= views_of(out@).push(line@));
                }
                out.push(line);
            }
            proof {
                done = done.push(cur);
                assert(cs@.subrange((i + 1) as int, (i + 1) as int) =~= Seq::<char>::empty());
            }
            start = i + 1;
        } else {
            assert(cs@.subrange(start as int, i as int).push(cs[i as int]) =~= cs@.subrange(
                start as int,
                i + 1,
            ));
            assert(done.push(cs@.subrange(start as int, i as int)).update(
                done.len() as int,
                cs@.subrange(start as int, i + 1),
            ) =~= done.push(cs@.subrange(start as int, i + 1)));
        }
        i = i + 1;
    }
    assert(cs@.subrange(0, n as int) =~= contents@);
    let (a, b) = trim_bounds(&cs, start, n);
    let ghost cur = cs@.subrange(start as int, n as int);
    assert(done.push(cur).drop_last() =~= done);
    if a < b {
        let line = string_of(&sub_chars(&cs, a, b));
        proof {
            assert(views_of(out@.push(line)) =~= views_of(out@).push(line@));
        }
        out.push(line);
    }
    out
}

} // verus!
