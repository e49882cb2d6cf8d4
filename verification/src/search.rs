//! Searching the library by title and composer.
//!
//! The query is trimmed and lowercased, then split at its spaces. A song matches when every
//! word that is left once trimmed occurs in the song's title or in its composer, both trimmed
//! and lowercased. A query without words matches every song.
use vstd::prelude::*;
use crate::collection::SongMetaV4;
use crate::outside::{is_whitespace, lowercase, push_char, to_lowercase, white_space};
use crate::page_files::chars_of;

verus! {

/// `s` without the white space at its start and at its end.
pub open spec fn trimmed(s: Seq<char>) -> Seq<char> {
    s.subrange(leading_space(s), s.len() - trailing_space(s))
}

/// Number of white-space characters at the start of `s`.
pub open spec fn leading_space(s: Seq<char>) -> int
    decreases s.len(),
{
    if s.len() == 0 || !white_space(s[0]) {
        0
    } else {
        1 + leading_space(s.drop_first())
    }
}

/// Number of white-space characters at the end of `s`, not counting any that
/// also begin it.
pub open spec fn trailing_space(s: Seq<char>) -> int {
    trailing_space_of(s.subrange(leading_space(s), s.len() as int))
}

/// Number of white-space characters at the end of `s`.
pub open spec fn trailing_space_of(s: Seq<char>) -> int
    decreases s.len(),
{
    if s.len() == 0 || !white_space(s.last()) {
        0
    } else {
        1 + trailing_space_of(s.drop_last())
    }
}

/// `needle` occurs somewhere in `hay`.
pub open spec fn occurs_in(needle: Seq<char>, hay: Seq<char>) -> bool {
    exists|i: int| 0 <= i <= hay.len() - needle.len() && #[trigger] hay.subrange(i, i + needle.len()) == needle
}

/// The form in which texts are compared: trimmed, then lowercased.
pub open spec fn normalized(s: Seq<char>) -> Seq<char> {
    lowercase(trimmed(s))
}

/// The pieces of `s` between its spaces, as `str::split(" ")` gives them: two spaces in a row
/// give an empty piece, and a text without spaces is one piece.
pub open spec fn split_spaces(s: Seq<char>) -> Seq<Seq<char>>
    decreases s.len(),
{
    if s.len() == 0 {
        seq![Seq::empty()]
    } else {
        let r = split_spaces(s.drop_last());
        if s.last() == ' ' {
            r.push(Seq::empty())
        } else {
            r.update(r.len() - 1, r.last().push(s.last()))
        }
    }
}

/// The pieces put back together with a space between every two of them.
pub open spec fn joined_with_spaces(pieces: Seq<Seq<char>>) -> Seq<char>
    decreases pieces.len(),
{
    if pieces.len() == 0 {
        Seq::empty()
    } else if pieces.len() == 1 {
        pieces[0]
    } else {
        joined_with_spaces(pieces.drop_last()).push(' ') + pieces.last()
    }
}

/// Splitting at the spaces cuts a text exactly at its spaces: no piece holds a space, and the
/// pieces joined with a space between every two of them give the text back.
pub proof fn lemma_split_spaces_cuts_at_spaces(s: Seq<char>)
    ensures
        split_spaces(s).len() >= 1,
        forall|k: int| 0 <= k < split_spaces(s).len() ==> !(#[trigger] split_spaces(s)[k]).contains(' '),
        joined_with_spaces(split_spaces(s)) == s,
    decreases s.len(),
{
    if s.len() == 0 {
        assert(split_spaces(s) =~= seq![Seq::<char>::empty()]);
        assert(joined_with_spaces(split_spaces(s)) =~= s);
    } else {
        let d = s.drop_last();
        lemma_split_spaces_cuts_at_spaces(d);
        let r = split_spaces(d);
        let c = s.last();
        assert(d.push(c) =~= s);
        if c == ' ' {
            let n = r.push(Seq::<char>::empty());
            assert(split_spaces(s) == n);
            assert(n.drop_last() =~= r);
            assert forall|k: int| 0 <= k < n.len() implies !(#[trigger] n[k]).contains(' ') by {
                if k < r.len() {
                    assert(n[k] == r[k]);
                }
            }
            assert(joined_with_spaces(n) =~= s);
        } else {
            let n = r.update(r.len() - 1, r.last().push(c));
            assert(split_spaces(s) == n);
            assert forall|k: int| 0 <= k < n.len() implies !(#[trigger] n[k]).contains(' ') by {
                if k < r.len() - 1 {
                    assert(n[k] == r[k]);
                } else {
                    assert(!r[k].contains(' '));
                    if n[k].contains(' ') {
                        let m = choose|m: int| 0 <= m < n[k].len() && n[k][m] == ' ';
                        if m < r[k].len() {
                            assert(r[k][m] == ' ');
                        }
                    }
                }
            }
            if r.len() == 1 {
                assert(joined_with_spaces(n) =~= s);
            } else {
                assert(n.drop_last() =~= r.drop_last());
                assert(joined_with_spaces(r) == joined_with_spaces(r.drop_last()).push(' ') + r.last());
                assert(joined_with_spaces(n) =~= s);
            }
        }
    }
}

/// A word of a query occurs in the song's title or in its composer, both normalized.
pub open spec fn word_found(title: Option<String>, composer: Option<String>, word: Seq<char>) -> bool {
    ||| (title is Some && occurs_in(word, normalized(title.unwrap()@)))
    ||| (composer is Some && occurs_in(word, normalized(composer.unwrap()@)))
}

/// Every word of `words` that is not empty once trimmed occurs, trimmed, in the title or in
/// the composer.
pub open spec fn all_found(title: Option<String>, composer: Option<String>, words: Seq<Seq<char>>) -> bool {
    forall|i: int|
        0 <= i < words.len() && trimmed(#[trigger] words[i]).len() > 0 ==> word_found(
            title,
            composer,
            trimmed(words[i]),
        )
}

/// A song matches a normalized query: every word of the query (the pieces between its spaces,
/// trimmed, the empty ones left out) occurs in the title or in the composer.
pub open spec fn song_matches(title: Option<String>, composer: Option<String>, query: Seq<char>) -> bool {
    all_found(title, composer, split_spaces(query))
}

/// Where a word of a query is found: it is found exactly when it occurs, at any position, in
/// the song's title or in its composer, each trimmed and then lowercased (`str::to_lowercase`).
pub proof fn lemma_word_found_anywhere(title: Option<String>, composer: Option<String>, w: Seq<char>)
    ensures
        word_found(title, composer, w) <==> {
            ||| (title is Some && exists|i: int|
                0 <= i && i + w.len() <= lowercase(trimmed(title.unwrap()@)).len() && #[trigger] lowercase(
                    trimmed(title.unwrap()@),
                ).subrange(i, i + w.len()) == w)
            ||| (composer is Some && exists|i: int|
                0 <= i && i + w.len() <= lowercase(trimmed(composer.unwrap()@)).len() && #[trigger] lowercase(
                    trimmed(composer.unwrap()@),
                ).subrange(i, i + w.len()) == w)
        },
{
}

/// Titles, composers and queries are compared trimmed and then lowercased, so that a search
/// ignores surrounding white space and case.
pub proof fn lemma_normalized_is_trimmed_then_lowercased(s: Seq<char>)
    ensures
        normalized(s) == lowercase(trimmed(s)),
{
}

/// A query matches a song when each of its words occurs in the song's title or composer
/// (trimmed and lowercased), wherever in them, and not when one of its words occurs in neither.
pub proof fn lemma_query_words_decide(title: Option<String>, composer: Option<String>, query: Seq<char>)
    ensures
        (forall|k: int|
            0 <= k < split_spaces(query).len() && trimmed(#[trigger] split_spaces(query)[k]).len() > 0
                ==> word_found(title, composer, trimmed(split_spaces(query)[k]))) ==> song_matches(
            title,
            composer,
            query,
        ),
        (exists|k: int|
            0 <= k < split_spaces(query).len() && trimmed(#[trigger] split_spaces(query)[k]).len() > 0
                && !word_found(title, composer, trimmed(split_spaces(query)[k]))) ==> !song_matches(
            title,
            composer,
            query,
        ),
{
}

proof fn lemma_all_found_push(
    title: Option<String>,
    composer: Option<String>,
    words: Seq<Seq<char>>,
    w: Seq<char>,
)
    ensures
        all_found(title, composer, words.push(w)) == (all_found(title, composer, words) && (trimmed(
            w,
        ).len() > 0 ==> word_found(title, composer, trimmed(w)))),
{
    let all = words.push(w);
    assert(all[words.len() as int] == w);
    if all_found(title, composer, words) && (trimmed(w).len() > 0 ==> word_found(
        title,
        composer,
        trimmed(w),
    )) {
        assert forall|i: int| 0 <= i < all.len() && trimmed(#[trigger] all[i]).len() > 0 implies word_found(
            title,
            composer,
            trimmed(all[i]),
        ) by {
            if i < words.len() {
                assert(all[i] == words[i]);
            }
        }
    }
    if all_found(title, composer, all) {
        assert forall|i: int| 0 <= i < words.len() && trimmed(#[trigger] words[i]).len() > 0 implies word_found(
            title,
            composer,
            trimmed(words[i]),
        ) by {
            assert(all[i] == words[i]);
        }
    }
}

proof fn lemma_leading_space(s: Seq<char>)
    ensures
        0 <= leading_space(s) <= s.len(),
        forall|k: int| 0 <= k < leading_space(s) ==> white_space(#[trigger] s[k]),
        leading_space(s) < s.len() ==> !white_space(s[leading_space(s)]),
    decreases s.len(),
{
    if s.len() > 0 && white_space(s[0]) {
        lemma_leading_space(s.drop_first());
        assert forall|k: int| 0 <= k < leading_space(s) implies white_space(#[trigger] s[k]) by {
            if k > 0 {
                assert(s[k] == s.drop_first()[k - 1]);
            }
        }
    }
}

proof fn lemma_trailing_space_of(s: Seq<char>)
    ensures
        0 <= trailing_space_of(s) <= s.len(),
        forall|k: int| s.len() - trailing_space_of(s) <= k < s.len() ==> white_space(#[trigger] s[k]),
        trailing_space_of(s) < s.len() ==> !white_space(s[s.len() - 1 - trailing_space_of(s)]),
    decreases s.len(),
{
    if s.len() > 0 && white_space(s.last()) {
        lemma_trailing_space_of(s.drop_last());
        assert forall|k: int| s.len() - trailing_space_of(s) <= k < s.len() implies white_space(#[trigger] s[k]) by {
            if k < s.len() - 1 {
                assert(s[k] == s.drop_last()[k]);
            }
        }
    }
}

/// Trimming removes exactly the white space around a text: what is left is a piece of the
/// text, everything before and after it is white space, and it neither starts nor ends with
/// white space.
pub proof fn lemma_trimmed_strips_white_space(s: Seq<char>)
    ensures
        ({
            let t = trimmed(s);
            let l = leading_space(s);
            &&& 0 <= l && l + t.len() <= s.len()
            &&& t == s.subrange(l, l + t.len())
            &&& forall|k: int| 0 <= k < l ==> white_space(#[trigger] s[k])
            &&& forall|k: int| l + t.len() <= k < s.len() ==> white_space(#[trigger] s[k])
            &&& t.len() > 0 ==> !white_space(t[0]) && !white_space(t[t.len() - 1])
        }),
{
    lemma_leading_space(s);
    let l = leading_space(s);
    let inner = s.subrange(l, s.len() as int);
    lemma_trailing_space_of(inner);
    let tr = trailing_space_of(inner);
    let t = trimmed(s);
    assert(t.len() == s.len() - l - tr);
    assert forall|k: int| l + t.len() <= k < s.len() implies white_space(#[trigger] s[k]) by {
        assert(s[k] == inner[k - l]);
    }
    if t.len() > 0 {
        assert(t[0] == s[l]);
        assert(t[t.len() - 1] == inner[inner.len() - 1 - tr]);
    }
}

/// A text without the white space around it.
pub fn trim(s: &str) -> (r: String)
    ensures
        r@ == trimmed(s@),
{
    let chars = chars_of(s);
    let n = chars.len();
    let mut start: usize = 0;
    while start < n && is_whitespace(chars[start])
        invariant
            n == chars@.len(),
            0 <= start <= n,
            forall|k: int| 0 <= k < start ==> white_space(#[trigger] chars@[k]),
        decreases n - start,
    {
        start += 1;
    }
    proof {
        lemma_leading_space(chars@);
        let l = leading_space(chars@);
        assert(l == start) by {
            if l < start {
                assert(white_space(chars@[l]));
            }
            if l > start {
                assert(white_space(chars@[start as int]));
            }
        }
    }
    let mut end: usize = n;
    while end > start && is_whitespace(chars[end - 1])
        invariant
            n == chars@.len(),
            0 <= start <= end <= n,
            forall|k: int| end <= k < n ==> white_space(#[trigger] chars@[k]),
        decreases end,
    {
        end -= 1;
    }
    proof {
        let inner = chars@.subrange(start as int, n as int);
        lemma_trailing_space_of(inner);
        let t = trailing_space_of(inner);
        assert(t == n - end) by {
            if t < n - end {
                assert(inner[inner.len() - 1 - t] == chars@[n - 1 - t]);
            }
            if t > n - end {
                assert(end > start);
                assert(inner[end - 1 - start] == chars@[end - 1]);
                assert(white_space(inner[end - 1 - start]));
            }
        }
    }
    let mut r = String::new();
    let mut i = start;
    while i < end
        invariant
            n == chars@.len(),
            start <= i <= end <= n,
            r@ == chars@.subrange(start as int, i as int),
        decreases end - i,
    {
        push_char(&mut r, chars[i]);
        assert(r@ =~= chars@.subrange(start as int, i + 1));
        i += 1;
    }
    r
}

/// A text as it is compared: trimmed, then lowercased.
pub fn normalize(s: &str) -> (r: String)
    ensures
        r@ == normalized(s@),
{
    let t = trim(s);
    to_lowercase(t.as_str())
}

/// `needle` occurs somewhere in `hay`.
pub fn text_contains(hay: &str, needle: &str) -> (r: bool)
    ensures
        r == occurs_in(needle@, hay@),
{
    let h = chars_of(hay);
    let n = chars_of(needle);
    if n.len() > h.len() {
        return false;
    }
    let hl = h.len();
    let last = hl - n.len();
    let mut i: usize = 0;
    while i <= last
        invariant
            hl == h@.len(),
            h@ == hay@,
            n@ == needle@,
            last == h@.len() - n@.len(),
            0 <= i <= last + 1,
            forall|j: int| 0 <= j < i ==> #[trigger] h@.subrange(j, j + n@.len()) != n@,
        decreases last + 1 - i,
    {
        let mut k: usize = 0;
        let mut same = true;
        while k < n.len()
            invariant
                hl == h@.len(),
                h@ == hay@,
                n@ == needle@,
                last == h@.len() - n@.len(),
                0 <= i <= last,
                0 <= k <= n@.len(),
                same == forall|m: int| 0 <= m < k ==> h@[i + m] == n@[m],
            decreases n@.len() - k,
        {
            if h[i + k] != n[k] {
                same = false;
            }
            k += 1;
        }
        if same {
            assert(h@.subrange(i as int, i + n@.len()) =~= n@);
            return true;
        }
        assert(h@.subrange(i as int, i + n@.len()) != n@) by {
            let m = choose|m: int| 0 <= m < n@.len() && h@[i + m] != n@[m];
            assert(h@.subrange(i as int, i + n@.len())[m] != n@[m]);
        }
        i += 1;
    }
    false
}

/// Whether a word occurs in the normalized title or composer (`None` where the song has none).
fn word_occurs(title: &Option<String>, composer: &Option<String>, word: &str) -> (r: bool)
    ensures
        r == ((title is Some && occurs_in(word@, title.unwrap()@)) || (composer is Some && occurs_in(
            word@,
            composer.unwrap()@,
        ))),
{
    let in_title = match title {
        Some(t) => text_contains(t.as_str(), word),
        None => false,
    };
    let in_composer = match composer {
        Some(c) => text_contains(c.as_str(), word),
        None => false,
    };
    in_title || in_composer
}

/// A word of the query is satisfied: trimmed it is empty, or it occurs in the title or composer.
fn word_satisfied(title: &Option<String>, composer: &Option<String>, word: &str) -> (r: bool)
    ensures
        r == (trimmed(word@).len() > 0 ==> (title is Some && occurs_in(trimmed(word@), title.unwrap()@))
            || (composer is Some && occurs_in(trimmed(word@), composer.unwrap()@))),
{
    let t = trim(word);
    if t.as_str().is_empty() {
        return true;
    }
    word_occurs(title, composer, t.as_str())
}

fn normalized_option(text: &Option<String>) -> (r: Option<String>)
    ensures
        r is Some <==> text is Some,
        text is Some ==> r.unwrap()@ == normalized(text.unwrap()@),
{
    match text {
        Some(t) => Some(normalize(t.as_str())),
        None => None,
    }
}

/// Whether a song matches a search text typed by the user (see `song_matches`).
pub fn matches_search<G>(song: &SongMetaV4<G>, text: &str) -> (r: bool)
    ensures
        r == song_matches(song.title, song.composer, normalized(text@)),
{
    let query = normalize(text);
    let q = chars_of(query.as_str());
    let title = normalized_option(&song.title);
    let composer = normalized_option(&song.composer);
    let ghost st = song.title;
    let ghost sc = song.composer;
    let mut word = String::new();
    let mut ok = true;
    let ghost mut done: Seq<Seq<char>> = Seq::empty();
    let mut i: usize = 0;
    while i < q.len()
        invariant
            q@ == query@,
            query@ == normalized(text@),
            i <= q.len(),
            title is Some <==> st is Some,
            st is Some ==> title.unwrap()@ == normalized(st.unwrap()@),
            composer is Some <==> sc is Some,
            sc is Some ==> composer.unwrap()@ == normalized(sc.unwrap()@),
            split_spaces(q@.subrange(0, i as int)) == done.push(word@),
            ok == all_found(st, sc, done),
        decreases q.len() - i,
    {
        proof {
            assert(q@.subrange(0, i + 1).drop_last() =~= q@.subrange(0, i as int));
        }
        if q[i] == ' ' {
            let good = word_satisfied(&title, &composer, word.as_str());
            proof {
                lemma_all_found_push(st, sc, done, word@);
                done = done.push(word@);
                assert(split_spaces(q@.subrange(0, i + 1)) =~= done.push(Seq::<char>::empty()));
            }
            ok = ok && good;
            word = String::new();
        } else {
            push_char(&mut word, q[i]);
            proof {
                assert(split_spaces(q@.subrange(0, i + 1)) =~= done.push(word@));
            }
        }
        i = i + 1;
    }
    let good = word_satisfied(&title, &composer, word.as_str());
    proof {
        assert(q@.subrange(0, q@.len() as int) =~= q@);
        lemma_all_found_push(st, sc, done, word@);
    }
    ok && good
}

} // verus!
