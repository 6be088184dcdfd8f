use vstd::prelude::*;
use vstd::std_specs::iter::IteratorSpec;

verus! {

/// The characters that separate the columns of a row: those with the Unicode `White_Space`
/// property, as `char::is_whitespace` has them.
pub open spec fn is_space(c: char) -> bool {
    ('\t' <= c && c <= '\r') || c == ' ' || c == '\u{85}' || c == '\u{A0}' || c == '\u{1680}'
        || ('\u{2000}' <= c && c <= '\u{200A}') || c == '\u{2028}' || c == '\u{2029}'
        || c == '\u{202F}' || c == '\u{205F}' || c == '\u{3000}'
}

fn space(c: char) -> (r: bool)
    ensures
        r == is_space(c),
{
    ('\t' <= c && c <= '\r') || c == ' ' || c == '\u{85}' || c == '\u{A0}' || c == '\u{1680}'
        || ('\u{2000}' <= c && c <= '\u{200A}') || c == '\u{2028}' || c == '\u{2029}'
        || c == '\u{202F}' || c == '\u{205F}' || c == '\u{3000}'
}

/// The lines of `s`: the pieces between the line breaks, in order; one more than the
/// number of breaks, so an empty text has one empty line.
pub open spec fn lines_of(s: Seq<char>) -> Seq<Seq<char>>
    decreases s.len(),
{
    if s.len() == 0 {
        seq![Seq::empty()]
    } else {
        let p = lines_of(s.drop_last());
        let c = s.last();
        if c == '\n' {
            p.push(Seq::empty())
        } else {
            p.update(p.len() - 1, p.last().push(c))
        }
    }
}

/// The tokens of `s`: its maximal runs of characters that are not whitespace, in order.
pub open spec fn tokens_of(s: Seq<char>) -> Seq<Seq<char>>
    decreases s.len(),
{
    if s.len() == 0 {
        seq![]
    } else {
        let p = tokens_of(s.drop_last());
        let c = s.last();
        if is_space(c) {
            p
        } else if s.len() > 1 && !is_space(s[s.len() - 2]) {
            p.update(p.len() - 1, p.last().push(c))
        } else {
            p.push(seq![c])
        }
    }
}

pub open spec fn views_of(v: Seq<Vec<char>>) -> Seq<Seq<char>> {
    v.map_values(|x: Vec<char>| x@)
}

/// The characters of `s` in order.
pub(crate) fn chars_of(s: &str) -> (r: Vec<char>)
    ensures
        r@ == s@,
{
    broadcast use vstd::string::group_string_axioms;

    let mut it = s.chars();
    let mut out: Vec<char> = Vec::new();
    loop
        invariant
            it.obeys_prophetic_iter_laws(),
            out@ + it.remaining() == s@,
            it.decrease() is Some,
        ensures
            out@ == s@,
        decreases it.decrease()->0,
    {
        let ghost before = it.remaining();
        match it.next() {
            Some(c) => {
                out.push(c);
                assert(out@ + it.remaining() =~= s@);
            },
            None => {
                assert(before.len() == 0);
                assert(out@ =~= s@);
                break;
            },
        }
    }
    out
}

/// Relies on `String: FromIterator<&char>`: the characters of `v` in order, as a `String`.
#[verifier::external_body]
pub(crate) fn string_of(v: &Vec<char>) -> (r: String)
    ensures
        r@ == v@,
{
    v.iter().collect()
}

/// Splits `s` at its line breaks.
pub fn split_lines(s: &Vec<char>) -> (r: Vec<Vec<char>>)
    ensures
        views_of(r@) == lines_of(s@),
{
    let mut out: Vec<Vec<char>> = Vec::new();
    let mut cur: Vec<char> = Vec::new();
    let mut i: usize = 0;
    assert(s@.subrange(0, 0) =~= Seq::<char>::empty());
    assert(views_of(out@).push(cur@) =~= lines_of(Seq::<char>::empty()));
    while i < s.len()
        invariant
            i <= s@.len(),
            lines_of(s@.subrange(0, i as int)) == views_of(out@).push(cur@),
        decreases s@.len() - i,
    {
        let c = s[i];
        let ghost pre = s@.subrange(0, i as int);
        let ghost next = s@.subrange(0, i + 1);
        assert(next.drop_last() =~= pre);
        if c == '\n' {
            let ghost old_out = out@;
            let ghost old_cur = cur@;
            out.push(cur);
            cur = Vec::new();
            assert(views_of(out@) =~= views_of(old_out).push(old_cur));
            assert(lines_of(next) =~= views_of(out@).push(cur@));
        } else {
            let ghost old_cur = cur@;
            cur.push(c);
            assert(lines_of(next) =~= views_of(out@).push(cur@));
        }
        i = i + 1;
    }
    assert(s@.subrange(0, s@.len() as int) =~= s@);
    let ghost old_out = out@;
    out.push(cur);
    assert(views_of(out@) =~= views_of(old_out).push(cur@));
    out
}

/// Splits `s` into its whitespace-separated tokens, dropping the empty pieces between
/// adjacent separators.
pub fn split_tokens(s: &Vec<char>) -> (r: Vec<Vec<char>>)
    ensures
        views_of(r@) == tokens_of(s@),
{
    let mut out: Vec<Vec<char>> = Vec::new();
    let mut cur: Vec<char> = Vec::new();
    let mut i: usize = 0;
    assert(s@.subrange(0, 0) =~= Seq::<char>::empty());
    assert(views_of(out@) =~= tokens_of(Seq::<char>::empty()));
    while i < s.len()
        invariant
            i <= s@.len(),
            tokens_of(s@.subrange(0, i as int)) == if cur@.len() > 0 {
                views_of(out@).push(cur@)
            } else {
                views_of(out@)
            },
            cur@.len() > 0 <==> (i > 0 && !is_space(s@[i - 1])),
        decreases s@.len() - i,
    {
        let c = s[i];
        let ghost pre = s@.subrange(0, i as int);
        let ghost next = s@.subrange(0, i + 1);
        assert(next.drop_last() =~= pre);
        if space(c) {
            if cur.len() > 0 {
                let ghost old_out = out@;
                let ghost old_cur = cur@;
                out.push(cur);
                cur = Vec::new();
                assert(views_of(out@) =~= views_of(old_out).push(old_cur));
            }
            assert(tokens_of(next) =~= views_of(out@));
        } else {
            let ghost old_cur = cur@;
            assert(!is_space(c));
            assert(next.last() == c);
            if cur.len() > 0 {
                assert(next[next.len() - 2] == s@[i - 1]);
                let ghost p = views_of(out@).push(old_cur);
                assert(tokens_of(next) == p.update(p.len() - 1, p.last().push(c)));
                cur.push(c);
                assert(tokens_of(next) =~= views_of(out@).push(cur@));
            } else {
                assert(tokens_of(next) == views_of(out@).push(seq![c]));
                cur.push(c);
                assert(cur@ =~= seq![c]);
                assert(tokens_of(next) =~= views_of(out@).push(cur@));
            }
        }
        i = i + 1;
    }
    assert(s@.subrange(0, s@.len() as int) =~= s@);
    if cur.len() > 0 {
        let ghost old_out = out@;
        let ghost old_cur = cur@;
        out.push(cur);
        assert(views_of(out@) =~= views_of(old_out).push(old_cur));
    }
    out
}

} // verus!
