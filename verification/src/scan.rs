//! The free-text scanner and replacer: finds reference-shaped substrings —
//! an abbreviation variant of the text followed by a chapter, or by a
//! chapter and a verse — inside arbitrary prose, left to right and without
//! overlap, and rewrites each one that the strict parser accepts.

use vstd::prelude::*;

use crate::bible::{Reference, TextId};
use crate::books;
use crate::parse::{digit_run_end, digit_run_pos, lemma_digit_run_end};
use crate::text;

verus! {

/// A scanner hit inside a larger text: the matched substring, referencing
/// the scanned text, and its byte offset in it.
#[derive(Debug)]
pub struct ReferenceMatch<'a> {
    pub content: &'a str,
    pub position: usize,
}

/// True when the abbreviation variant `key` stands at position `i` of `s`,
/// compared without regard to letter case.
pub open spec fn key_at(s: Seq<char>, i: int, key: Seq<char>) -> bool {
    &&& 0 <= i
    &&& i + key.len() <= s.len()
    &&& forall|k: int| 0 <= k < key.len() ==> text::lower_char(#[trigger] s[i + k]) == key[k]
}

/// The length of the reference-shaped substring beginning at `i` with the
/// abbreviation variant `key`, or `-1` when none begins there: the variant,
/// one whitespace character, a run of digits and, when a colon and digits
/// follow the chapter, the verse number as well.
pub open spec fn key_match_len(s: Seq<char>, i: int, key: Seq<char>) -> int {
    if !key_at(s, i, key) {
        -1
    } else {
        let p = i + key.len() as int;
        if !(p < s.len() && text::is_ws_char(s[p])) {
            -1
        } else {
            let q = digit_run_end(s, p + 1);
            if q == p + 1 {
                -1
            } else {
                if q < s.len() && s[q] == ':' {
                    let q2 = digit_run_end(s, q + 1);
                    if q2 > q + 1 {
                        q2 - i
                    } else {
                        q - i
                    }
                } else {
                    q - i
                }
            }
        }
    }
}

/// The longest reference-shaped substring beginning at `i` using any of the
/// text's abbreviation variants with index at least `j`, or `-1`.
pub open spec fn best_match_from(s: Seq<char>, t: TextId, i: int, j: int) -> int
    decreases books::scan_key_count(t) - j,
{
    if j < 0 || j >= books::scan_key_count(t) {
        -1
    } else {
        let a = key_match_len(s, i, books::scan_key(t, j));
        let b = best_match_from(s, t, i, j + 1);
        if a >= b {
            a
        } else {
            b
        }
    }
}

/// The longest reference-shaped substring beginning at `i`, or `-1`.
pub open spec fn best_match_at(s: Seq<char>, t: TextId, i: int) -> int {
    best_match_from(s, t, i, 0)
}

/// A match length never reaches past the end of the text.
proof fn lemma_key_match_len_bounds(s: Seq<char>, i: int, key: Seq<char>)
    requires
        0 <= i <= s.len(),
    ensures
        key_match_len(s, i, key) == -1 || (1 <= key_match_len(s, i, key) <= s.len() - i),
{
    if key_at(s, i, key) {
        let p = i + key.len() as int;
        if p < s.len() && text::is_ws_char(s[p]) {
            lemma_digit_run_end(s, p + 1);
            let q = digit_run_end(s, p + 1);
            if q > p + 1 {
                if q < s.len() && s[q] == ':' {
                    lemma_digit_run_end(s, q + 1);
                }
            }
        }
    }
}

/// A best match length never reaches past the end of the text.
proof fn lemma_best_match_bounds(s: Seq<char>, t: TextId, i: int, j: int)
    requires
        0 <= i <= s.len(),
    ensures
        best_match_from(s, t, i, j) == -1 || (1 <= best_match_from(s, t, i, j) <= s.len() - i),
    decreases books::scan_key_count(t) - j,
{
    if 0 <= j < books::scan_key_count(t) {
        lemma_key_match_len_bounds(s, i, books::scan_key(t, j));
        lemma_best_match_bounds(s, t, i, j + 1);
    }
}

/// The matches of the text from position `i` on: at each position the
/// longest reference-shaped substring beginning there, if any, given as its
/// start and length; matching continues past its end, so matches never
/// overlap.
pub open spec fn matches_from(s: Seq<char>, t: TextId, i: int) -> Seq<(int, int)>
    decreases s.len() - i,
    via matches_from_decreases
{
    if i < 0 || i >= s.len() {
        Seq::empty()
    } else {
        let l = best_match_at(s, t, i);
        if l >= 1 {
            seq![(i, l)] + matches_from(s, t, i + l)
        } else {
            matches_from(s, t, i + 1)
        }
    }
}

#[via_fn]
proof fn matches_from_decreases(s: Seq<char>, t: TextId, i: int) {
    if 0 <= i < s.len() {
        lemma_best_match_bounds(s, t, i, 0);
    }
}

/// All reference-shaped matches of a text, in document order.
pub open spec fn matches_spec(s: Seq<char>, t: TextId) -> Seq<(int, int)> {
    matches_from(s, t, 0)
}

/// The matches from position `i` on stand in order at or after `i`, have
/// length at least one, stay within the text, and never overlap.
pub proof fn lemma_matches_from_wf(s: Seq<char>, t: TextId, i: int)
    requires
        0 <= i,
    ensures
        forall|m: int|
            0 <= m < matches_from(s, t, i).len() ==> {
                &&& i <= #[trigger] matches_from(s, t, i)[m].0
                &&& matches_from(s, t, i)[m].1 >= 1
                &&& matches_from(s, t, i)[m].0 + matches_from(s, t, i)[m].1 <= s.len()
            },
        forall|m: int|
            0 <= m < matches_from(s, t, i).len() - 1 ==> #[trigger] matches_from(s, t, i)[m].0
                + matches_from(s, t, i)[m].1 <= matches_from(s, t, i)[m + 1].0,
    decreases s.len() - i,
{
    if i >= s.len() {
    } else {
        let l = best_match_at(s, t, i);
        lemma_best_match_bounds(s, t, i, 0);
        if l >= 1 {
            lemma_matches_from_wf(s, t, i + l);
            let ms = matches_from(s, t, i);
            let rest = matches_from(s, t, i + l);
            assert(forall|m: int|
                1 <= m < ms.len() ==> #[trigger] ms[m] == rest[m - 1]);
            assert(ms[0] == (i, l));
        } else {
            lemma_matches_from_wf(s, t, i + 1);
            assert(matches_from(s, t, i) == matches_from(s, t, i + 1));
            let ms = matches_from(s, t, i);
            let rest = matches_from(s, t, i + 1);
            assert(forall|m: int|
                0 <= m < ms.len() ==> #[trigger] ms[m] == rest[m]);
        }
    }
}

} // verus!

verus! {

/// Measures the reference-shaped substring at `i` under one abbreviation
/// variant.
fn key_len_at(tv: &Vec<char>, key: &Vec<char>, i: usize) -> (r: Option<usize>)
    requires
        i <= tv@.len(),
    ensures
        match r {
            Some(l) => key_match_len(tv@, i as int, key@) == l as int,
            None => key_match_len(tv@, i as int, key@) == -1,
        },
{
    let tvn = tv.len();
    if key.len() > tvn - i {
        proof {
            assert(!key_at(tv@, i as int, key@));
        }
        return None;
    }
    let mut k: usize = 0;
    while k < key.len()
        invariant
            tvn == tv@.len(),
            i <= tv@.len(),
            i + key@.len() <= tv@.len(),
            k <= key@.len(),
            forall|kk: int| 0 <= kk < k ==> text::lower_char(#[trigger] tv@[i + kk]) == key@[kk],
        decreases key@.len() - k,
    {
        if text::lower_char_exec(tv[i + k]) != key[k] {
            proof {
                assert(!key_at(tv@, i as int, key@));
            }
            return None;
        }
        k += 1;
    }
    assert(key_at(tv@, i as int, key@));
    let p = i + key.len();
    if p >= tv.len() {
        return None;
    }
    if !text::ws_char(tv[p]) {
        return None;
    }
    let q = digit_run_pos(tv, p + 1);
    proof {
        lemma_digit_run_end(tv@, p as int + 1);
    }
    if q == p + 1 {
        return None;
    }
    if q < tv.len() && tv[q] == ':' {
        let q2 = digit_run_pos(tv, q + 1);
        proof {
            lemma_digit_run_end(tv@, q as int + 1);
        }
        if q2 > q + 1 {
            Some(q2 - i)
        } else {
            Some(q - i)
        }
    } else {
        Some(q - i)
    }
}

/// Measures the longest reference-shaped substring at `i` under any of the
/// text's abbreviation variants.
fn best_at(tv: &Vec<char>, keys: &Vec<Vec<char>>, text: &TextId, i: usize) -> (r: Option<usize>)
    requires
        i <= tv@.len(),
        keys@.len() == books::scan_key_count(*text),
        forall|j: int| 0 <= j < keys@.len() ==> #[trigger] keys@[j]@ == books::scan_key(*text, j),
    ensures
        match r {
            Some(l) => best_match_at(tv@, *text, i as int) == l as int && l >= 1,
            None => best_match_at(tv@, *text, i as int) == -1,
        },
{
    let mut j = keys.len();
    let mut best: Option<usize> = None;
    while j > 0
        invariant
            i <= tv@.len(),
            j <= keys@.len(),
            keys@.len() == books::scan_key_count(*text),
            forall|jj: int|
                0 <= jj < keys@.len() ==> #[trigger] keys@[jj]@ == books::scan_key(*text, jj),
            match best {
                None => best_match_from(tv@, *text, i as int, j as int) == -1,
                Some(l) => best_match_from(tv@, *text, i as int, j as int) == l as int && l >= 1,
            },
        decreases j,
    {
        j -= 1;
        let a = key_len_at(tv, &keys[j], i);
        proof {
            lemma_key_match_len_bounds(tv@, i as int, keys@[j as int]@);
        }
        best = match (a, best) {
            (Some(x), Some(y)) => if x >= y {
                Some(x)
            } else {
                Some(y)
            },
            (Some(x), None) => Some(x),
            (None, b) => b,
        };
    }
    best
}

/// Builds the lower-case character forms of a text's abbreviation variants.
fn scan_keys_vec(text: &TextId) -> (r: Vec<Vec<char>>)
    ensures
        r@.len() == books::scan_key_count(*text),
        forall|j: int| 0 <= j < r@.len() ==> #[trigger] r@[j]@ == books::scan_key(*text, j),
{
    let n = books::scan_key_len(text);
    let mut r: Vec<Vec<char>> = Vec::new();
    let mut j: usize = 0;
    while j < n
        invariant
            n == books::scan_key_count(*text),
            j <= n,
            r@.len() == j,
            forall|jj: int| 0 <= jj < j ==> #[trigger] r@[jj]@ == books::scan_key(*text, jj),
        decreases n - j,
    {
        r.push(text::str_chars(books::scan_key_str(text, j)));
        j += 1;
    }
    r
}

/// What a reported scanner hit says of the scanned text: its content is the
/// matched substring itself, and its position is the byte offset of the
/// match — the length of the UTF-8 encoding of everything before it.
pub open spec fn match_reported<'a>(
    s: Seq<char>,
    hit: ReferenceMatch<'a>,
    pair: (int, int),
) -> bool {
    &&& hit.content@ == s.subrange(pair.0, pair.0 + pair.1)
    &&& hit.position == vstd::utf8::encode_utf8(s.take(pair.0)).len() as usize
}

/// Finds all Bible passage references in a given value with their content
/// and position. Only those book abbreviations included in a given text are
/// supported; matching is without regard to letter case, left to right, and
/// without overlap, the longest match winning at each position.
pub fn find_reference_matches_in<'a>(content: &'a str, text: &TextId) -> (r: Vec<
    ReferenceMatch<'a>,
>)
    ensures
        r@.len() == matches_spec(content@, *text).len(),
        forall|m: int|
            0 <= m < r@.len() ==> match_reported(
                content@,
                #[trigger] r@[m],
                matches_spec(content@, *text)[m],
            ),
{
    let ghost s = content@;
    let tv = text::str_chars(content);
    let keys = scan_keys_vec(text);
    let mut out: Vec<ReferenceMatch<'a>> = Vec::new();
    let ghost mut done: Seq<(int, int)> = Seq::empty();
    let mut i: usize = 0;
    proof {
        assert(done + matches_from(s, *text, 0) =~= matches_spec(s, *text));
    }
    while i < tv.len()
        invariant
            tv@ == s,
            content@ == s,
            i <= s.len(),
            keys@.len() == books::scan_key_count(*text),
            forall|j: int|
                0 <= j < keys@.len() ==> #[trigger] keys@[j]@ == books::scan_key(*text, j),
            matches_spec(s, *text) == done + matches_from(s, *text, i as int),
            out@.len() == done.len(),
            forall|m: int|
                0 <= m < out@.len() ==> match_reported(s, #[trigger] out@[m], done[m]),
        decreases s.len() - i,
    {
        match best_at(&tv, &keys, text, i) {
            Some(l) => {
                proof {
                    lemma_best_match_bounds(s, *text, i as int, 0);
                }
                let matched = content.substring_char(i, i + l);
                let prefix = content.substring_char(0, i);
                let position = prefix.len();
                let ghost prior_out = out@;
                out.push(ReferenceMatch { content: matched, position });
                proof {
                    assert(forall|m: int|
                        0 <= m < prior_out.len() ==> #[trigger] out@[m] == prior_out[m]);
                    assert(prefix@ == s.take(i as int)) by {
                        assert(s.subrange(0, i as int) =~= s.take(i as int));
                    }
                    assert(match_reported(s, out@.last(), (i as int, l as int)));
                    let pair = (i as int, l as int);
                    assert(matches_from(s, *text, i as int) == seq![pair] + matches_from(
                        s,
                        *text,
                        i + l,
                    ));
                    let prior = done;
                    done = done + seq![pair];
                    assert(forall|m: int| 0 <= m < prior.len() ==> #[trigger] done[m] == prior[m]);
                    assert(done.last() == pair);
                    assert(prior + (seq![pair] + matches_from(s, *text, i + l)) =~= done
                        + matches_from(s, *text, i + l));
                    assert(matches_spec(s, *text) == done + matches_from(s, *text, i + l));
                }
                i = i + l;
            },
            None => {
                proof {
                    assert(matches_from(s, *text, i as int) == matches_from(
                        s,
                        *text,
                        i as int + 1,
                    ));
                }
                i = i + 1;
            },
        }
    }
    proof {
        assert(matches_from(s, *text, i as int) =~= Seq::<(int, int)>::empty());
        assert(done + Seq::<(int, int)>::empty() =~= done);
        assert(matches_spec(s, *text) == done);
        assert(out@.len() == matches_spec(s, *text).len());
    }
    out
}

} // verus!

verus! {

/// The text that replacement produces, given the matches and one
/// replacement string for each: the unmatched stretches of `s` interleaved,
/// in order, with the replacements.
pub open spec fn stitched(
    s: Seq<char>,
    ms: Seq<(int, int)>,
    outs: Seq<Seq<char>>,
    from: int,
) -> Seq<char>
    decreases ms.len(),
{
    if ms.len() == 0 {
        s.subrange(from, s.len() as int)
    } else {
        s.subrange(from, ms[0].0) + outs[0] + stitched(
            s,
            ms.drop_first(),
            outs.drop_first(),
            ms[0].0 + ms[0].1,
        )
    }
}

/// Stitching from `from` takes the character at `from` over unchanged when
/// every match starts later.
proof fn lemma_stitched_advance(s: Seq<char>, ms: Seq<(int, int)>, outs: Seq<Seq<char>>, from: int)
    requires
        0 <= from < s.len(),
        ms.len() > 0 ==> from + 1 <= ms[0].0 <= s.len(),
    ensures
        stitched(s, ms, outs, from) == seq![s[from]] + stitched(s, ms, outs, from + 1),
{
    if ms.len() == 0 {
        assert(s.subrange(from, s.len() as int) =~= seq![s[from]] + s.subrange(
            from + 1,
            s.len() as int,
        ));
    } else {
        assert(s.subrange(from, ms[0].0) =~= seq![s[from]] + s.subrange(from + 1, ms[0].0));
        assert((seq![s[from]] + s.subrange(from + 1, ms[0].0)) + outs[0] + stitched(
            s,
            ms.drop_first(),
            outs.drop_first(),
            ms[0].0 + ms[0].1,
        ) =~= seq![s[from]] + (s.subrange(from + 1, ms[0].0) + outs[0] + stitched(
            s,
            ms.drop_first(),
            outs.drop_first(),
            ms[0].0 + ms[0].1,
        )));
    }
}

/// A text with no reference-shaped substring anywhere has no matches.
proof fn lemma_no_matches_from(s: Seq<char>, t: TextId, i: int)
    requires
        0 <= i,
        forall|p: int| 0 <= p < s.len() ==> #[trigger] best_match_at(s, t, p) < 1,
    ensures
        matches_from(s, t, i) == Seq::<(int, int)>::empty(),
    decreases s.len() - i,
{
    if i < s.len() {
        lemma_no_matches_from(s, t, i + 1);
    }
}

/// A text containing no reference-shaped substring yields no matches: the
/// scanner returns the empty sequence exactly when no position of the text
/// begins a reference-shaped substring.
pub proof fn lemma_no_matches(s: Seq<char>, t: TextId)
    requires
        forall|p: int| 0 <= p < s.len() ==> #[trigger] best_match_at(s, t, p) < 1,
    ensures
        matches_spec(s, t) == Seq::<(int, int)>::empty(),
{
    lemma_no_matches_from(s, t, 0);
}

/// Stitching that replaces every match by its own text reproduces the text
/// from `from` on.
proof fn lemma_stitched_identity_from(s: Seq<char>, t: TextId, outs: Seq<Seq<char>>, i: int)
    requires
        0 <= i,
        outs.len() == matches_from(s, t, i).len(),
        forall|m: int|
            0 <= m < outs.len() ==> #[trigger] outs[m] == s.subrange(
                matches_from(s, t, i)[m].0,
                matches_from(s, t, i)[m].0 + matches_from(s, t, i)[m].1,
            ),
    ensures
        stitched(s, matches_from(s, t, i), outs, i) == s.subrange(i, s.len() as int),
    decreases s.len() - i,
{
    let ms = matches_from(s, t, i);
    if i >= s.len() {
        assert(stitched(s, ms, outs, i) == s.subrange(i, s.len() as int));
    } else {
        let l = best_match_at(s, t, i);
        lemma_best_match_bounds(s, t, i, 0);
        if l >= 1 {
            let rest = matches_from(s, t, i + l);
            assert(ms == seq![(i, l)] + rest);
            assert(ms[0] == (i, l));
            assert(ms.drop_first() =~= rest);
            assert(outs.drop_first().len() == rest.len());
            assert(forall|m: int|
                0 <= m < outs.drop_first().len() ==> #[trigger] outs.drop_first()[m] == s.subrange(
                    rest[m].0,
                    rest[m].0 + rest[m].1,
                )) by {
                assert(forall|m: int|
                    0 <= m < rest.len() ==> #[trigger] rest[m] == ms[m + 1]);
            }
            lemma_stitched_identity_from(s, t, outs.drop_first(), i + l);
            assert(outs[0] == s.subrange(i, i + l));
            assert(s.subrange(i, i as int) + s.subrange(i, i + l) + s.subrange(
                i + l,
                s.len() as int,
            ) =~= s.subrange(i, s.len() as int));
        } else {
            assert(ms == matches_from(s, t, i + 1));
            lemma_stitched_identity_from(s, t, outs, i + 1);
            lemma_matches_from_wf(s, t, i + 1);
            if ms.len() > 0 {
                assert(i + 1 <= ms[0].0);
                assert(ms[0].0 + ms[0].1 <= s.len());
            }
            lemma_stitched_advance(s, ms, outs, i);
            assert(seq![s[i]] + s.subrange(i + 1, s.len() as int) =~= s.subrange(
                i,
                s.len() as int,
            ));
        }
    }
}

/// A replacement pass in which every match is replaced by its own text —
/// as happens when each match either fails to re-parse or renders back to
/// exactly the matched text — leaves the whole text unchanged. A second
/// pass over such a text is therefore a no-op.
pub proof fn lemma_stable_text_unchanged(s: Seq<char>, t: TextId, outs: Seq<Seq<char>>)
    requires
        outs.len() == matches_spec(s, t).len(),
        forall|m: int|
            0 <= m < outs.len() ==> #[trigger] outs[m] == s.subrange(
                matches_spec(s, t)[m].0,
                matches_spec(s, t)[m].0 + matches_spec(s, t)[m].1,
            ),
    ensures
        stitched(s, matches_spec(s, t), outs, 0) == s,
{
    lemma_stitched_identity_from(s, t, outs, 0);
    assert(s.subrange(0, s.len() as int) =~= s);
}

} // verus!

verus! {

/// What one replacement did with one match: a match the strict parser
/// rejects stands unchanged, and a match it resolves is replaced by an
/// output of the replacer on the resolved reference.
pub open spec fn replaced_entry_ok<F: Fn(&Reference) -> String>(
    s: Seq<char>,
    t: TextId,
    f: F,
    pair: (int, int),
    o: Seq<char>,
) -> bool {
    let sub = s.subrange(pair.0, pair.0 + pair.1);
    match crate::bible::parse_by_text_spec(sub, t) {
        Option::None => o == sub,
        Option::Some(rf) => exists|so: String| call_ensures(f, (&rf,), so) && o == so@,
    }
}

/// Replaces all references found with a corresponding reference found
/// according to a given text.
///
/// Each reference-shaped match is re-parsed by the strict parser; a match
/// that parses is replaced by the replacer's rendering of the resolved
/// reference, and a match that does not parse — an unknown abbreviation or
/// a chapter out of bounds — remains as it stands, so replacement never
/// invalidates an already-invalid match. Unmatched text passes through
/// unchanged.
#[verifier::rlimit(60)]
pub fn replace_reference_matches_in<'a, F: Fn(&Reference) -> String>(
    content: &'a str,
    text: &'a TextId,
    replacer: F,
) -> (r: String)
    requires
        forall|x: &Reference| #[trigger] call_requires(replacer, (x,)),
    ensures
        exists|outs: Seq<Seq<char>>|
            #![trigger outs.len()]
            {
                let ms = matches_spec(content@, *text);
                &&& outs.len() == ms.len()
                &&& (forall|m: int|
                    0 <= m < ms.len() ==> replaced_entry_ok(
                        content@,
                        *text,
                        replacer,
                        ms[m],
                        #[trigger] outs[m],
                    ))
                &&& r@ == stitched(content@, ms, outs, 0)
            },
{
    let ghost s = content@;
    let tv = text::str_chars(content);
    let keys = scan_keys_vec(text);
    let ghost ms_all = matches_spec(s, *text);
    let mut out: Vec<char> = Vec::new();
    let ghost mut done: Seq<(int, int)> = Seq::empty();
    let ghost mut outs: Seq<Seq<char>> = Seq::empty();
    let mut i: usize = 0;
    proof {
        assert(done + matches_from(s, *text, 0) =~= ms_all);
        assert forall|rest: Seq<Seq<char>>|
            #[trigger] stitched(s, matches_from(s, *text, 0), rest, 0) == out@ + stitched(
                s,
                matches_from(s, *text, 0),
                rest,
                0,
            ) && stitched(s, ms_all, outs + rest, 0) == out@ + stitched(
                s,
                matches_from(s, *text, 0),
                rest,
                0,
            ) by {
            assert(outs + rest =~= rest);
            assert(out@ + stitched(s, matches_from(s, *text, 0), rest, 0) =~= stitched(
                s,
                matches_from(s, *text, 0),
                rest,
                0,
            ));
        }
    }
    while i < tv.len()
        invariant
            tv@ == s,
            content@ == s,
            i <= s.len(),
            keys@.len() == books::scan_key_count(*text),
            forall|j: int|
                0 <= j < keys@.len() ==> #[trigger] keys@[j]@ == books::scan_key(*text, j),
            forall|x: &Reference| #[trigger] call_requires(replacer, (x,)),
            ms_all == matches_spec(s, *text),
            ms_all == done + matches_from(s, *text, i as int),
            outs.len() == done.len(),
            forall|m: int|
                0 <= m < done.len() ==> replaced_entry_ok(
                    s,
                    *text,
                    replacer,
                    done[m],
                    #[trigger] outs[m],
                ),
            forall|rest: Seq<Seq<char>>|
                #![trigger stitched(s, matches_from(s, *text, i as int), rest, i as int)]
                stitched(s, ms_all, outs + rest, 0) == out@ + stitched(
                    s,
                    matches_from(s, *text, i as int),
                    rest,
                    i as int,
                ),
        decreases s.len() - i,
    {
        match best_at(&tv, &keys, text, i) {
            Some(l) => {
                proof {
                    lemma_best_match_bounds(s, *text, i as int, 0);
                }
                let ghost subs = s.subrange(i as int, i as int + l as int);
                let sub = text::subvec(&tv, i, i + l);
                proof {
                    assert(sub@ == subs);
                }
                let parsed = crate::bible::parse_reference_by_text_chars(&sub, text);
                let ghost parsed_spec = parsed;
                let ghost mut o: Seq<char> = Seq::empty();
                let piece_chars: Vec<char>;
                match parsed {
                    Some(reference) => {
                        let piece = replacer(&reference);
                        piece_chars = text::str_chars(piece.as_str());
                        proof {
                            o = piece@;
                            assert(call_ensures(replacer, (&reference,), piece));
                        }
                    },
                    None => {
                        piece_chars = sub;
                        proof {
                            o = subs;
                        }
                    },
                }
                let ghost prior_out = out@;
                text::push_all(&mut out, &piece_chars);
                let ghost prior_done = done;
                let ghost prior_outs = outs;
                let ghost pair = (i as int, l as int);
                proof {
                    assert(piece_chars@ == o);
                    done = done + seq![pair];
                    outs = outs + seq![o];
                    assert(forall|m: int|
                        0 <= m < prior_done.len() ==> #[trigger] done[m] == prior_done[m]
                            && outs[m] == prior_outs[m]);
                    assert(done.last() == pair);
                    assert(outs.last() == o);
                    assert(replaced_entry_ok(s, *text, replacer, pair, o)) by {
                        assert(s.subrange(pair.0, pair.0 + pair.1) == subs);
                        assert(crate::bible::parse_by_text_spec(subs, *text) == parsed_spec);
                    }
                    assert forall|m: int|
                        0 <= m < done.len() implies replaced_entry_ok(
                        s,
                        *text,
                        replacer,
                        done[m],
                        #[trigger] outs[m],
                    ) by {
                        if m < prior_done.len() {
                            assert(done[m] == prior_done[m]);
                            assert(outs[m] == prior_outs[m]);
                            assert(replaced_entry_ok(
                                s,
                                *text,
                                replacer,
                                prior_done[m],
                                prior_outs[m],
                            ));
                        } else {
                            assert(done[m] == pair);
                            assert(outs[m] == o);
                        }
                    }
                    assert(matches_from(s, *text, i as int) == seq![pair] + matches_from(
                        s,
                        *text,
                        i + l,
                    ));
                    assert(prior_done + (seq![pair] + matches_from(s, *text, i + l)) =~= done
                        + matches_from(s, *text, i + l));
                    assert forall|rest: Seq<Seq<char>>|
                        #[trigger] stitched(s, matches_from(s, *text, i + l), rest, i + l)
                            == stitched(s, matches_from(s, *text, i + l), rest, i + l) && stitched(
                            s,
                            ms_all,
                            outs + rest,
                            0,
                        ) == out@ + stitched(s, matches_from(s, *text, i + l), rest, i + l) by {
                        let ms_i = matches_from(s, *text, i as int);
                        let tail = stitched(s, matches_from(s, *text, i + l), rest, i + l);
                        assert(outs + rest =~= prior_outs + (seq![o] + rest));
                        assert(stitched(s, ms_all, prior_outs + (seq![o] + rest), 0) == prior_out
                            + stitched(s, ms_i, seq![o] + rest, i as int));
                        assert(ms_i.drop_first() =~= matches_from(s, *text, i + l));
                        assert((seq![o] + rest).drop_first() =~= rest);
                        assert(ms_i[0] == pair);
                        assert((seq![o] + rest)[0] == o);
                        assert(stitched(s, ms_i, seq![o] + rest, i as int) == s.subrange(
                            i as int,
                            i as int,
                        ) + o + tail);
                        assert(s.subrange(i as int, i as int) =~= Seq::<char>::empty());
                        assert(prior_out + (s.subrange(i as int, i as int) + o + tail) =~= (
                        prior_out + o) + tail);
                        assert(out@ =~= prior_out + o);
                    }
                }
                i = i + l;
            },
            None => {
                out.push(tv[i]);
                let ghost prior_out = out@.drop_last();
                proof {
                    assert(matches_from(s, *text, i as int) == matches_from(
                        s,
                        *text,
                        i as int + 1,
                    ));
                    lemma_matches_from_wf(s, *text, i as int + 1);
                    assert forall|rest: Seq<Seq<char>>|
                        #[trigger] stitched(s, matches_from(s, *text, i as int + 1), rest, i as int
                            + 1) == stitched(s, matches_from(s, *text, i as int + 1), rest, i as int
                            + 1) && stitched(s, ms_all, outs + rest, 0) == out@ + stitched(
                            s,
                            matches_from(s, *text, i as int + 1),
                            rest,
                            i as int + 1,
                        ) by {
                        let ms_i = matches_from(s, *text, i as int);
                        assert(stitched(s, ms_all, outs + rest, 0) == prior_out + stitched(
                            s,
                            ms_i,
                            rest,
                            i as int,
                        ));
                        if ms_i.len() > 0 {
                            assert(i as int + 1 <= ms_i[0].0);
                            assert(ms_i[0].0 + ms_i[0].1 <= s.len());
                        }
                        lemma_stitched_advance(s, ms_i, rest, i as int);
                        assert(prior_out + (seq![s[i as int]] + stitched(
                            s,
                            ms_i,
                            rest,
                            i as int + 1,
                        )) =~= out@ + stitched(s, ms_i, rest, i as int + 1));
                    }
                }
                i = i + 1;
            },
        }
    }
    proof {
        assert(stitched(s, ms_all, outs + Seq::<Seq<char>>::empty(), 0) == out@ + stitched(
            s,
            matches_from(s, *text, i as int),
            Seq::<Seq<char>>::empty(),
            i as int,
        ));
        assert(outs + Seq::<Seq<char>>::empty() =~= outs);
        assert(matches_from(s, *text, i as int) == Seq::<(int, int)>::empty());
        assert(stitched(s, Seq::empty(), Seq::<Seq<char>>::empty(), i as int) =~= Seq::<
            char,
        >::empty());
        assert(out@ + Seq::<char>::empty() =~= out@);
        assert(stitched(s, ms_all, outs, 0) == out@);
        assert(ms_all == done);
    }
    let result = text::chars_to_string(&out);
    proof {
        let ms = matches_spec(content@, *text);
        assert(ms == done);
        assert(outs.len() == ms.len());
        assert(forall|m: int|
            0 <= m < ms.len() ==> replaced_entry_ok(
                content@,
                *text,
                replacer,
                ms[m],
                #[trigger] outs[m],
            ));
        assert(result@ == stitched(content@, ms, outs, 0));
    }
    result
}

} // verus!
