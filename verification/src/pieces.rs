//! Laws of texts and what they are taken apart into, stated over positions: the
//! pieces between separators, lines, words, tokens, what trimming leaves.

use crate::moments;
use crate::names;
use crate::records;
use crate::text;
use vstd::prelude::*;

verus! {

/// The pieces with one separator between each and the next.
pub open spec fn rejoined(pieces: Seq<Seq<char>>, c: char) -> Seq<char>
    decreases pieces.len(),
{
    if pieces.len() == 0 {
        Seq::empty()
    } else if pieces.len() == 1 {
        pieces[0]
    } else {
        rejoined(pieces.drop_last(), c) + seq![c] + pieces.last()
    }
}

/// Where pieces stand in a text: the first at its start, each one up to a
/// separator or the end, the next behind that separator, and no separator in any.
pub open spec fn stand(
    starts: Seq<int>,
    pieces: Seq<Seq<char>>,
    s: Seq<char>,
    sep: spec_fn(char) -> bool,
) -> bool {
    &&& starts.len() == pieces.len()
    &&& pieces.len() > 0
    &&& starts[0] == 0
    &&& forall|k: int|
        0 <= k < pieces.len() ==> 0 <= #[trigger] starts[k] && starts[k] + pieces[k].len()
            <= s.len() && s.subrange(starts[k], starts[k] + pieces[k].len()) == pieces[k]
    &&& forall|k: int, m: int|
        0 <= k < pieces.len() && m == k + 1 && m < pieces.len() ==> #[trigger] starts[m] == (
        #[trigger] starts[k]) + pieces[k].len() + 1 && sep(s[starts[m] - 1])
    &&& starts.last() + pieces.last().len() == s.len()
    &&& forall|k: int, i: int|
        0 <= k < pieces.len() && 0 <= i < pieces[k].len() ==> !sep(#[trigger] pieces[k][i])
}

/// Where the pieces of a text stand.
pub proof fn lemma_pieces_stand(s: Seq<char>, sep: spec_fn(char) -> bool) -> (starts: Seq<int>)
    ensures
        stand(starts, text::split(s, sep), s, sep),
    decreases s.len(),
{
    let pieces = text::split(s, sep);
    if s.len() == 0 {
        assert(s.subrange(0, 0) =~= Seq::<char>::empty());
        seq![0int]
    } else {
        let front = s.drop_last();
        let before = text::split(front, sep);
        let at = lemma_pieces_stand(front, sep);
        if sep(s.last()) {
            let starts = at.push(s.len() as int);
            assert forall|k: int| 0 <= k < pieces.len() implies 0 <= #[trigger] starts[k] && starts[k]
                + pieces[k].len() <= s.len() && s.subrange(starts[k], starts[k] + pieces[k].len())
                == pieces[k] by {
                if k < before.len() {
                    assert(starts[k] == at[k] && pieces[k] == before[k]);
                    assert(front.subrange(at[k], at[k] + before[k].len()) =~= s.subrange(
                        at[k],
                        at[k] + before[k].len(),
                    ));
                } else {
                    assert(s.subrange(s.len() as int, s.len() as int) =~= Seq::<char>::empty());
                }
            }
            assert forall|k: int, m: int|
                0 <= k < pieces.len() && m == k + 1 && m < pieces.len() implies #[trigger] starts[m]
                == (#[trigger] starts[k]) + pieces[k].len() + 1 && sep(s[starts[m] - 1]) by {
                assert(starts[k] == at[k] && pieces[k] == before[k]);
                if m < before.len() {
                    assert(starts[m] == at[m]);
                    assert(front[at[m] - 1] == s[at[m] - 1]);
                }
            }
            assert forall|k: int, i: int|
                0 <= k < pieces.len() && 0 <= i < pieces[k].len() implies !sep(
                #[trigger] pieces[k][i],
            ) by {
                assert(pieces[k] == before[k]);
                assert(!sep(before[k][i]));
            }
            starts
        } else {
            let last = before.len() - 1;
            assert(pieces.len() == before.len());
            assert forall|k: int| 0 <= k < pieces.len() implies 0 <= #[trigger] at[k] && at[k]
                + pieces[k].len() <= s.len() && s.subrange(at[k], at[k] + pieces[k].len())
                == pieces[k] by {
                assert(front.subrange(at[k], at[k] + before[k].len()) =~= s.subrange(
                    at[k],
                    at[k] + before[k].len(),
                ));
                if k < last {
                    assert(pieces[k] == before[k]);
                } else {
                    assert(pieces[k] == before.last().push(s.last()));
                    assert(s.subrange(at[k], at[k] + pieces[k].len()) =~= s.subrange(
                        at[k],
                        at[k] + before[k].len(),
                    ).push(s.last()));
                }
            }
            assert forall|k: int, m: int|
                0 <= k < pieces.len() && m == k + 1 && m < pieces.len() implies #[trigger] at[m] == (
            #[trigger] at[k]) + pieces[k].len() + 1 && sep(s[at[m] - 1]) by {
                assert(pieces[k] == before[k]);
                assert(at[m] == at[k] + before[k].len() + 1);
                assert(at[m] + before[m].len() <= front.len());
                assert(front[at[m] - 1] == s[at[m] - 1]);
            }
            assert forall|k: int, i: int|
                0 <= k < pieces.len() && 0 <= i < pieces[k].len() implies !sep(
                #[trigger] pieces[k][i],
            ) by {
                if k < last {
                    assert(pieces[k] == before[k]);
                    assert(!sep(before[k][i]));
                } else if i < before[k].len() {
                    assert(pieces[k][i] == before[k][i]);
                    assert(!sep(before[k][i]));
                }
            }
            at
        }
    }
}

/// Taking a text apart at a character and putting one of it between the pieces
/// gives the text back, and no piece holds the character.
pub proof fn pieces_give_the_text_back(s: Seq<char>, c: char)
    ensures
        rejoined(text::split_char(s, c), c) == s,
        forall|k: int, i: int|
            0 <= k < text::split_char(s, c).len() && 0 <= i < text::split_char(s, c)[k].len()
                ==> #[trigger] text::split_char(s, c)[k][i] != c,
    decreases s.len(),
{
    let sep = text::equals(c);
    let pieces = text::split_char(s, c);
    let at = lemma_pieces_stand(s, sep);
    assert forall|k: int, i: int|
        0 <= k < pieces.len() && 0 <= i < pieces[k].len() implies #[trigger] pieces[k][i] != c by {
        assert(!sep(pieces[k][i]));
    }
    if s.len() == 0 {
        assert(rejoined(pieces, c) =~= s);
    } else {
        let front = s.drop_last();
        let before = text::split_char(front, c);
        pieces_give_the_text_back(front, c);
        let at2 = lemma_pieces_stand(front, sep);
        if sep(s.last()) {
            assert(pieces.drop_last() =~= before);
            assert(rejoined(pieces, c) =~= front + seq![c]);
            assert(front + seq![c] =~= s);
        } else {
            if before.len() == 1 {
                assert(rejoined(pieces, c) =~= front.push(s.last()));
                assert(front.push(s.last()) =~= s);
            } else {
                assert(pieces.drop_last() =~= before.drop_last());
                let r = rejoined(before.drop_last(), c);
                assert(r + seq![c] + before.last().push(s.last()) =~= (r + seq![c]
                    + before.last()).push(s.last()));
                assert(front.push(s.last()) =~= s);
            }
        }
    }
}

/// All of it is white space.
pub open spec fn all_white(s: Seq<char>) -> bool {
    forall|i: int| 0 <= i < s.len() ==> text::whitespace(#[trigger] s[i])
}

/// Trimming takes off the white space at both ends and nothing else: the text is
/// what is left with white space before and behind it, and what is left neither
/// begins nor ends with any.
pub proof fn trimming_takes_the_white_space_around(s: Seq<char>)
    ensures
        exists|a: Seq<char>, b: Seq<char>| #[trigger]
            all_white(a) && #[trigger] all_white(b) && a + text::trimmed(s) + b == s,
        text::trimmed(s).len() > 0 ==> !text::whitespace(text::trimmed(s)[0]) && !text::whitespace(
            text::trimmed(s).last(),
        ),
    decreases s.len(),
{
    let r = text::trimmed(s);
    if s.len() > 0 && text::whitespace(s[0]) {
        let t = s.drop_first();
        trimming_takes_the_white_space_around(t);
        let (a, b) = choose|a: Seq<char>, b: Seq<char>| #[trigger]
            all_white(a) && #[trigger] all_white(b) && a + text::trimmed(t) + b == t;
        let x = seq![s[0]] + a;
        assert forall|i: int| 0 <= i < x.len() implies text::whitespace(#[trigger] x[i]) by {
            if i > 0 {
                assert(x[i] == a[i - 1]);
            }
        }
        assert(x + r + b =~= seq![s[0]] + (a + r + b));
        assert(seq![s[0]] + t =~= s);
        assert(all_white(x) && all_white(b) && x + r + b == s);
    } else if s.len() > 0 && text::whitespace(s.last()) {
        let t = s.drop_last();
        trimming_takes_the_white_space_around(t);
        let (a, b) = choose|a: Seq<char>, b: Seq<char>| #[trigger]
            all_white(a) && #[trigger] all_white(b) && a + text::trimmed(t) + b == t;
        let y = b.push(s.last());
        assert forall|i: int| 0 <= i < y.len() implies text::whitespace(#[trigger] y[i]) by {
            if i < b.len() {
                assert(y[i] == b[i]);
            }
        }
        assert(a + r + y =~= (a + r + b).push(s.last()));
        assert(t.push(s.last()) =~= s);
        assert(all_white(a) && all_white(y) && a + r + y == s);
    } else {
        let none = Seq::<char>::empty();
        assert(none + s + none =~= s);
        assert(all_white(none) && none + r + none == s);
    }
}

/// `list` holds the runs between separators that are long enough, in order:
/// each stands where `starts` says, up to a separator or an end on both sides,
/// and every run that is long enough is there.
pub open spec fn are_runs(
    list: Seq<Seq<char>>,
    starts: Seq<int>,
    s: Seq<char>,
    sep: spec_fn(char) -> bool,
    least: nat,
) -> bool {
    &&& starts.len() == list.len()
    &&& forall|i: int, j: int|
        0 <= i < j < starts.len() ==> #[trigger] starts[i] < #[trigger] starts[j]
    &&& forall|k: int|
        0 <= k < list.len() ==> is_run(s, sep, #[trigger] starts[k], list[k].len() as int)
            && s.subrange(starts[k], starts[k] + list[k].len()) == list[k] && list[k].len() >= least
    &&& forall|a: int, n: int| #[trigger] is_run(s, sep, a, n) && n >= least ==> starts.contains(a)
}

/// From `a` on, `n` characters are no separators, and there is a separator or an
/// end on both sides.
pub open spec fn is_run(s: Seq<char>, sep: spec_fn(char) -> bool, a: int, n: int) -> bool {
    &&& 0 <= a && 0 <= n && a + n <= s.len()
    &&& forall|i: int| a <= i < a + n ==> !sep(#[trigger] s[i])
    &&& a == 0 || sep(s[a - 1])
    &&& a + n == s.len() || sep(s[a + n])
}

proof fn lemma_runs(
    s: Seq<char>,
    sep: spec_fn(char) -> bool,
    keep: spec_fn(Seq<char>) -> bool,
    least: nat,
) -> (starts: Seq<int>)
    requires
        forall|t: Seq<char>| #[trigger] keep(t) == (t.len() >= least),
    ensures
        are_runs(text::split(s, sep).filter(keep), starts, s, sep, least),
{
    let pieces = text::split(s, sep);
    let list = pieces.filter(keep);
    let at = lemma_pieces_stand(s, sep);
    let inner = moments::lemma_filter_lists(pieces, keep);
    let picked = |k: int| keep(pieces[k]);
    let starts = Seq::new(inner.len(), |k: int| at[inner[k]]);
    lemma_starts_ascend(at, pieces, s, sep);
    assert forall|k: int| 0 <= k < pieces.len() implies is_run(
        s,
        sep,
        #[trigger] at[k],
        pieces[k].len() as int,
    ) by {
        assert(s.subrange(at[k], at[k] + pieces[k].len()) == pieces[k]);
        assert forall|i: int| at[k] <= i < at[k] + pieces[k].len() implies !sep(
            #[trigger] s[i],
        ) by {
            assert(s.subrange(at[k], at[k] + pieces[k].len())[i - at[k]] == s[i]);
            assert(!sep(pieces[k][i - at[k]]));
        }
        if k > 0 {
            assert(at[k] == at[k - 1] + pieces[k - 1].len() + 1);
        }
        if k < pieces.len() - 1 {
            assert(at[k + 1] == at[k] + pieces[k].len() + 1);
        }
    }
    assert forall|k: int| 0 <= k < list.len() implies is_run(
        s,
        sep,
        #[trigger] starts[k],
        list[k].len() as int,
    ) && s.subrange(starts[k], starts[k] + list[k].len()) == list[k] && list[k].len() >= least by {
        assert(picked(inner[k]));
        assert(list[k] == pieces[inner[k]]);
        assert(starts[k] == at[inner[k]]);
    }
    assert forall|i: int, j: int| 0 <= i < j < starts.len() implies #[trigger] starts[i]
        < #[trigger] starts[j] by {
        assert(inner[i] < inner[j]);
        assert(picked(inner[i]) && picked(inner[j]));
        assert(at[inner[i]] < at[inner[j]]);
    }
    assert forall|a: int, n: int| #[trigger]
        is_run(s, sep, a, n) && n >= least implies starts.contains(a) by {
        let k = lemma_run_is_piece(at, pieces, s, sep, a, n);
        assert(picked(k));
        let j = inner.index_of(k);
        assert(starts[j] == a);
    }
    starts
}

proof fn lemma_starts_ascend(
    at: Seq<int>,
    pieces: Seq<Seq<char>>,
    s: Seq<char>,
    sep: spec_fn(char) -> bool,
)
    requires
        stand(at, pieces, s, sep),
    ensures
        forall|i: int, j: int| 0 <= i < j < at.len() ==> #[trigger] at[i] < #[trigger] at[j],
{
    assert forall|i: int, j: int| 0 <= i < j < at.len() implies #[trigger] at[i] < #[trigger] at[j] by {
        lemma_ascend_to(at, pieces, s, sep, i, j);
    }
}

proof fn lemma_ascend_to(
    at: Seq<int>,
    pieces: Seq<Seq<char>>,
    s: Seq<char>,
    sep: spec_fn(char) -> bool,
    i: int,
    j: int,
)
    requires
        stand(at, pieces, s, sep),
        0 <= i < j < at.len(),
    ensures
        at[i] < at[j],
    decreases j - i,
{
    assert(at[j] == at[j - 1] + pieces[j - 1].len() + 1);
    if i < j - 1 {
        lemma_ascend_to(at, pieces, s, sep, i, j - 1);
    }
}

/// A run is one of the pieces.
proof fn lemma_run_is_piece(
    at: Seq<int>,
    pieces: Seq<Seq<char>>,
    s: Seq<char>,
    sep: spec_fn(char) -> bool,
    a: int,
    n: int,
) -> (k: int)
    requires
        stand(at, pieces, s, sep),
        is_run(s, sep, a, n),
    ensures
        0 <= k < pieces.len(),
        at[k] == a,
        pieces[k].len() == n,
{
    let k = lemma_holder(at, pieces, s, sep, a, pieces.len() - 1);
    let p = pieces[k];
    assert(s.subrange(at[k], at[k] + p.len()) == p);
    if at[k] < a {
        assert(s.subrange(at[k], at[k] + p.len())[a - 1 - at[k]] == s[a - 1]);
        assert(!sep(p[a - 1 - at[k]]));
    }
    if p.len() < n {
        if k < pieces.len() - 1 {
            assert(at[k + 1] == at[k] + pieces[k].len() + 1);
            assert(sep(s[at[k + 1] - 1]));
        }
    } else if p.len() > n {
        assert(s.subrange(at[k], at[k] + p.len())[n] == s[a + n]);
        assert(!sep(p[n]));
    }
    k
}

/// The piece that holds a position, or that ends there.
proof fn lemma_holder(
    at: Seq<int>,
    pieces: Seq<Seq<char>>,
    s: Seq<char>,
    sep: spec_fn(char) -> bool,
    a: int,
    k: int,
) -> (r: int)
    requires
        stand(at, pieces, s, sep),
        0 <= k < pieces.len(),
        0 <= a <= at[k] + pieces[k].len(),
    ensures
        0 <= r <= k,
        at[r] <= a <= at[r] + pieces[r].len(),
    decreases k,
{
    if at[k] <= a {
        k
    } else {
        assert(k > 0);
        assert(at[k] == at[k - 1] + pieces[k - 1].len() + 1);
        lemma_holder(at, pieces, s, sep, a, k - 1)
    }
}

/// White space, as what stands between words.
pub open spec fn is_white() -> spec_fn(char) -> bool {
    |c: char| text::whitespace(c)
}

/// The words of a text are its runs without white space, all of them, in order.
pub proof fn words_are_the_runs_between_white_space(s: Seq<char>)
    ensures
        exists|starts: Seq<int>| #[trigger] are_runs(text::words(s), starts, s, is_white(), 1),
{
    assert(text::separates() =~= is_white());
    assert(text::words(s) == text::split(s, is_white()).filter(text::not_empty()));
    let starts = lemma_runs(s, is_white(), text::not_empty(), 1);
    assert(are_runs(text::words(s), starts, s, is_white(), 1));
}

/// What is no letter and no digit.
pub open spec fn is_mark() -> spec_fn(char) -> bool {
    |c: char| !text::alphanumeric(c)
}

/// The tokens of a name are the runs of letters and digits of its lower-case form
/// that have two characters or more, all of them, in order.
pub proof fn tokens_are_the_runs_of_letters_and_digits(name: Seq<char>)
    ensures
        exists|starts: Seq<int>| #[trigger]
            are_runs(names::tokens(name), starts, text::lowercase(name), is_mark(), 2),
{
    assert(names::not_alphanumeric() =~= is_mark());
    let low = text::lowercase(name);
    assert(names::tokens(name) == text::split(low, is_mark()).filter(names::indexable()));
    let starts = lemma_runs(low, is_mark(), names::indexable(), 2);
    assert(are_runs(names::tokens(name), starts, low, is_mark(), 2));
}

/// The lines of a text are what stands between its line feeds, without the
/// carriage return before a line feed: with the ends put back the text comes back.
pub proof fn lines_stand_between_line_feeds(s: Seq<char>)
    ensures
        ({
            let l = records::lines(s);
            let p = text::split_char(s, '\n');
            &&& l.len() == p.len()
            &&& l.len() > 0
            &&& rejoined(p, '\n') == s
            &&& l.last() == p.last()
            &&& forall|i: int|
                0 <= i < l.len() - 1 ==> (#[trigger] l[i] == p[i] && (p[i].len() == 0 || p[i].last()
                    != '\r')) || (l[i].push('\r') == p[i])
            &&& forall|i: int, j: int|
                0 <= i < l.len() && 0 <= j < l[i].len() ==> #[trigger] l[i][j] != '\n'
        }),
{
    let l = records::lines(s);
    let p = text::split_char(s, '\n');
    pieces_give_the_text_back(s, '\n');
    text::lemma_split_nonempty(s, text::equals('\n'));
    assert forall|i: int| 0 <= i < l.len() - 1 implies (#[trigger] l[i] == p[i] && (p[i].len() == 0
        || p[i].last() != '\r')) || (l[i].push('\r') == p[i]) by {
        if p[i].len() > 0 && p[i].last() == '\r' {
            assert(p[i].drop_last().push('\r') =~= p[i]);
        }
    }
    assert forall|i: int, j: int| 0 <= i < l.len() && 0 <= j < l[i].len() implies #[trigger] l[i][j]
        != '\n' by {
        assert(p[i][j] != '\n');
    }
}

/// A text opens with a character where that is the first that is no white space.
pub proof fn text_opens_with_its_first_character(s: Seq<char>, c: char)
    ensures
        records::opens_with(s, c) <==> exists|i: int|
            0 <= i < s.len() && #[trigger] s[i] == c && !text::whitespace(c) && forall|j: int|
                0 <= j < i ==> text::whitespace(#[trigger] s[j]),
    decreases s.len(),
{
    if s.len() > 0 {
        let t = s.drop_first();
        text_opens_with_its_first_character(t, c);
        if text::whitespace(s[0]) {
            if records::opens_with(t, c) {
                let i = choose|i: int|
                    0 <= i < t.len() && #[trigger] t[i] == c && !text::whitespace(c) && forall|
                        j: int,
                    |
                        0 <= j < i ==> text::whitespace(#[trigger] t[j]);
                assert(s[i + 1] == c);
                assert forall|j: int| 0 <= j < i + 1 implies text::whitespace(#[trigger] s[j]) by {
                    if j > 0 {
                        assert(t[j - 1] == s[j]);
                    }
                }
            }
            if exists|i: int|
                0 <= i < s.len() && #[trigger] s[i] == c && !text::whitespace(c) && forall|j: int|
                    0 <= j < i ==> text::whitespace(#[trigger] s[j]) {
                let i = choose|i: int|
                    0 <= i < s.len() && #[trigger] s[i] == c && !text::whitespace(c) && forall|
                        j: int,
                    |
                        0 <= j < i ==> text::whitespace(#[trigger] s[j]);
                assert(t[i - 1] == c);
                assert forall|j: int| 0 <= j < i - 1 implies text::whitespace(#[trigger] t[j]) by {
                    assert(s[j + 1] == t[j]);
                }
            }
        } else {
            if s[0] == c {
                assert(s[0] == c && !text::whitespace(c));
            }
        }
    }
}

/// A search takes in four times as many hits as it may return, so that it does
/// not stop early before it has those.
pub proof fn search_looks_at_four_times_its_limit(limit: usize)
    ensures
        names::hit_cap(limit) >= limit,
        limit * 4 <= usize::MAX ==> names::hit_cap(limit) == 4 * limit,
{
}

} // verus!
