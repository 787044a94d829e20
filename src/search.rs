use vstd::prelude::*;

use crate::config::Config;
use crate::text::{
    chars_of, contains, contains_chars, line_end, lines_of, occurs_at, split_lines, strip_cr, views,
};

verus! {

/// `c` with an ASCII capital letter turned into its small letter.
pub open spec fn ascii_lower(c: char) -> char {
    if 'A' <= c && c <= 'Z' {
        ((c as u32 + 32) as u8) as char
    } else {
        c
    }
}

/// Whether every character of `s` is ASCII.
pub open spec fn all_ascii(s: Seq<char>) -> bool {
    forall|i: int| 0 <= i < s.len() ==> (#[trigger] s[i] as u32) < 128
}

/// `s` with each ASCII capital letter turned into its small letter.
pub open spec fn ascii_lowered(s: Seq<char>) -> Seq<char> {
    s.map_values(|c: char| ascii_lower(c))
}

/// What `str::to_lowercase` returns for a text with these characters.
pub uninterp spec fn lower_of(s: Seq<char>) -> Seq<char>;

/// Relies on `str::to_lowercase`: its result depends on the characters alone, and
/// on ASCII text it lowers each letter in place (std converts a leading ASCII run
/// byte by byte with `u8::to_ascii_lowercase`).
#[verifier::external_body]
fn lowercase(s: &str) -> (r: String)
    ensures
        r@ == lower_of(s@),
        all_ascii(s@) ==> r@ == ascii_lowered(s@),
{
    s.to_lowercase()
}

/// Whether `line` holds `query`: as it stands when `case_sensitive`, else after
/// both have been lower-cased.
pub open spec fn line_matches(line: Seq<char>, query: Seq<char>, case_sensitive: bool) -> bool {
    if case_sensitive {
        contains(line, query)
    } else {
        contains(lower_of(line), lower_of(query))
    }
}

/// The lines of `lines` that match `query`, in their order.
pub open spec fn matching_lines(lines: Seq<Seq<char>>, query: Seq<char>, case_sensitive: bool) -> Seq<
    Seq<char>,
>
    decreases lines.len(),
{
    if lines.len() == 0 {
        seq![]
    } else {
        let rest = matching_lines(lines.drop_last(), query, case_sensitive);
        if line_matches(lines.last(), query, case_sensitive) {
            rest.push(lines.last())
        } else {
            rest
        }
    }
}

/// Whether `line` matches the search of `cfg`.
fn line_hit(cfg: &Config, query_chars: &Vec<char>, line: &str) -> (r: bool)
    requires
        cfg.is_case_sensitive ==> query_chars@ == cfg.query@,
        !cfg.is_case_sensitive ==> query_chars@ == lower_of(cfg.query@),
    ensures
        r == line_matches(line@, cfg.query@, cfg.is_case_sensitive),
{
    if cfg.is_case_sensitive {
        let cs = chars_of(line);
        contains_chars(&cs, query_chars)
    } else {
        let lowered = lowercase(line);
        let cs = chars_of(lowered.as_str());
        contains_chars(&cs, query_chars)
    }
}

/// The lines of `contents` that match the search of `cfg`, in file order, each a
/// slice of `contents`.
pub fn search<'a>(cfg: &Config, contents: &'a str) -> (r: Vec<&'a str>)
    ensures
        views(r@) == matching_lines(lines_of(contents@), cfg.query@, cfg.is_case_sensitive),
{
    let lines = split_lines(contents);
    let query_chars = if cfg.is_case_sensitive {
        chars_of(cfg.query.as_str())
    } else {
        let lowered = lowercase(cfg.query.as_str());
        chars_of(lowered.as_str())
    };
    let ghost all = views(lines@);
    let mut out: Vec<&'a str> = Vec::new();
    for j in 0..lines.len()
        invariant
            all == views(lines@),
            cfg.is_case_sensitive ==> query_chars@ == cfg.query@,
            !cfg.is_case_sensitive ==> query_chars@ == lower_of(cfg.query@),
            views(out@) == matching_lines(all.subrange(0, j as int), cfg.query@, cfg.is_case_sensitive),
    {
        let line = lines[j];
        proof {
            assert(all.subrange(0, j + 1).drop_last() =~= all.subrange(0, j as int));
        }
        if line_hit(cfg, &query_chars, line) {
            let ghost before = out@;
            out.push(line);
            proof {
                assert(views(out@) =~= views(before).push(line@));
            }
        }
    }
    proof {
        assert(all.subrange(0, lines@.len() as int) =~= all);
    }
    out
}

/// Lower-casing agrees with ASCII lower-casing on every ASCII text; each call
/// of `lowercase` states this of the text it lowers.
pub open spec fn lowering_is_ascii_on_ascii() -> bool {
    forall|t: Seq<char>| all_ascii(t) ==> #[trigger] lower_of(t) == ascii_lowered(t)
}

proof fn lemma_matching_members(lines: Seq<Seq<char>>, query: Seq<char>, case_sensitive: bool)
    ensures
        forall|l: Seq<char>|
            #[trigger] matching_lines(lines, query, case_sensitive).contains(l) <==> lines.contains(l)
                && line_matches(l, query, case_sensitive),
    decreases lines.len(),
{
    if lines.len() > 0 {
        let init = lines.drop_last();
        lemma_matching_members(init, query, case_sensitive);
        assert(lines =~= init.push(lines.last()));
        assert forall|l: Seq<char>| lines.contains(l) <==> init.contains(l) || l == lines.last() by {
            if lines.contains(l) {
                let i = choose|i: int| 0 <= i < lines.len() && lines[i] == l;
                if i < init.len() {
                    assert(init[i] == l);
                }
            }
            if init.contains(l) {
                let i = choose|i: int| 0 <= i < init.len() && init[i] == l;
                assert(lines[i] == l);
            }
            if l == lines.last() {
                assert(lines[lines.len() - 1] == l);
            }
        }
        let rest = matching_lines(init, query, case_sensitive);
        assert forall|l: Seq<char>| rest.push(lines.last()).contains(l) <==> rest.contains(l)
            || l == lines.last() by {
            if rest.push(lines.last()).contains(l) {
                let i = choose|i: int|
                    0 <= i < rest.len() + 1 && rest.push(lines.last())[i] == l;
                if i < rest.len() {
                    assert(rest[i] == l);
                }
            }
            if rest.contains(l) {
                let i = choose|i: int| 0 <= i < rest.len() && rest[i] == l;
                assert(rest.push(lines.last())[i] == l);
            }
            if l == lines.last() {
                assert(rest.push(lines.last())[rest.len() as int] == l);
            }
        }
        assert forall|l: Seq<char>|
            #[trigger] matching_lines(lines, query, case_sensitive).contains(l) <==> lines.contains(l)
                && line_matches(l, query, case_sensitive) by {
            assert(rest.contains(l) <==> init.contains(l) && line_matches(l, query, case_sensitive));
            if line_matches(lines.last(), query, case_sensitive) {
                assert(matching_lines(lines, query, case_sensitive) == rest.push(lines.last()));
            } else {
                assert(matching_lines(lines, query, case_sensitive) == rest);
            }
        }
    }
}

proof fn lemma_matching_indices(lines: Seq<Seq<char>>, query: Seq<char>, case_sensitive: bool) -> (idx: Seq<int>)
    ensures
        idx.len() == matching_lines(lines, query, case_sensitive).len(),
        forall|k: int| 0 <= k < idx.len() ==> 0 <= #[trigger] idx[k] < lines.len(),
        forall|k: int| #![trigger idx[k]] 0 <= k < idx.len() ==> matching_lines(lines, query, case_sensitive)[k] == lines[idx[k]],
        forall|a: int, b: int| 0 <= a < b < idx.len() ==> idx[a] < idx[b],
        forall|j: int|
            0 <= j < lines.len() ==> (line_matches(#[trigger] lines[j], query, case_sensitive) <==> idx.contains(j)),
    decreases lines.len(),
{
    if lines.len() == 0 {
        Seq::empty()
    } else {
        let init = lines.drop_last();
        let last = lines.len() - 1;
        let prev = lemma_matching_indices(init, query, case_sensitive);
        assert forall|j: int| 0 <= j < init.len() implies init[j] == lines[j] by {}
        if line_matches(lines.last(), query, case_sensitive) {
            let idx = prev.push(last);
            assert forall|j: int| 0 <= j < lines.len() implies (line_matches(#[trigger] lines[j], query, case_sensitive) <==> idx.contains(j)) by {
                if j < last {
                    assert(init[j] == lines[j]);
                    if prev.contains(j) {
                        let k = choose|k: int| 0 <= k < prev.len() && prev[k] == j;
                        assert(idx[k] == j);
                    }
                    if idx.contains(j) {
                        let k = choose|k: int| 0 <= k < idx.len() && idx[k] == j;
                        assert(k < prev.len());
                        assert(prev[k] == j);
                    }
                } else {
                    assert(idx[prev.len() as int] == j);
                }
            }
            idx
        } else {
            assert forall|j: int| 0 <= j < lines.len() implies (line_matches(#[trigger] lines[j], query, case_sensitive) <==> prev.contains(j)) by {
                if j < last {
                    assert(init[j] == lines[j]);
                } else {
                    if prev.contains(j) {
                        let k = choose|k: int| 0 <= k < prev.len() && prev[k] == j;
                        assert(prev[k] < init.len());
                    }
                }
            }
            prev
        }
    }
}

/// The search keeps lines of the text only, in their order, and exactly those
/// that match: the returned `idx` lists, in increasing order, the positions of
/// the kept lines among all the lines.
pub proof fn lemma_search_selects_in_order(contents: Seq<char>, query: Seq<char>, case_sensitive: bool) -> (idx: Seq<int>)
    ensures
        ({
            let lines = lines_of(contents);
            let found = matching_lines(lines, query, case_sensitive);
            &&& idx.len() == found.len()
            &&& forall|k: int| 0 <= k < idx.len() ==> 0 <= #[trigger] idx[k] < lines.len()
            &&& forall|k: int| #![trigger idx[k]] 0 <= k < idx.len() ==> found[k] == lines[idx[k]]
            &&& forall|a: int, b: int| 0 <= a < b < idx.len() ==> idx[a] < idx[b]
            &&& forall|j: int|
                0 <= j < lines.len() ==> (line_matches(#[trigger] lines[j], query, case_sensitive)
                    <==> idx.contains(j))
        }),
{
    lemma_matching_indices(lines_of(contents), query, case_sensitive)
}

proof fn lemma_lines_ascii(s: Seq<char>)
    requires
        all_ascii(s),
    ensures
        forall|i: int| 0 <= i < lines_of(s).len() ==> all_ascii(#[trigger] lines_of(s)[i]),
    decreases s.len(),
{
    if s.len() > 0 {
        let k = line_end(s);
        if 0 <= k < s.len() {
            let tail = s.subrange(k + 1, s.len() as int);
            assert(all_ascii(tail)) by {
                assert forall|i: int| 0 <= i < tail.len() implies (#[trigger] tail[i] as u32) < 128 by {
                    assert(tail[i] == s[k + 1 + i]);
                }
            }
            lemma_lines_ascii(tail);
            let head = strip_cr(s.subrange(0, k));
            assert(all_ascii(head)) by {
                assert forall|i: int| 0 <= i < head.len() implies (#[trigger] head[i] as u32) < 128 by {
                    assert(head[i] == s[i]);
                }
            }
            let ls = lines_of(s);
            assert(ls =~= seq![head] + lines_of(tail));
            assert forall|i: int| 0 <= i < ls.len() implies all_ascii(#[trigger] ls[i]) by {
                if i > 0 {
                    assert(ls[i] == lines_of(tail)[i - 1]);
                }
            }
        }
    }
}

proof fn lemma_lowered_contains(line: Seq<char>, query: Seq<char>)
    requires
        contains(line, query),
    ensures
        contains(ascii_lowered(line), ascii_lowered(query)),
{
    let i = choose|i: int| occurs_at(line, query, i);
    let low = ascii_lowered(line);
    let n = query.len() as int;
    assert(low.subrange(i, i + n) =~= ascii_lowered(query)) by {
        assert forall|k: int| 0 <= k < n implies low.subrange(i, i + n)[k] == ascii_lowered(query)[k] by {
            assert(line.subrange(i, i + n)[k] == query[k]);
        }
    }
    assert(occurs_at(low, ascii_lowered(query), i));
}

/// On ASCII text and query, the case-insensitive search keeps every line that
/// the case-sensitive search keeps.
pub proof fn lemma_insensitive_keeps_sensitive(contents: Seq<char>, query: Seq<char>)
    requires
        lowering_is_ascii_on_ascii(),
        all_ascii(contents),
        all_ascii(query),
    ensures
        forall|l: Seq<char>|
            #[trigger] matching_lines(lines_of(contents), query, true).contains(l)
                ==> matching_lines(lines_of(contents), query, false).contains(l),
{
    let lines = lines_of(contents);
    lemma_matching_members(lines, query, true);
    lemma_matching_members(lines, query, false);
    lemma_lines_ascii(contents);
    assert forall|l: Seq<char>| #[trigger] matching_lines(lines, query, true).contains(l)
        implies matching_lines(lines, query, false).contains(l) by {
        let i = choose|i: int| 0 <= i < lines.len() && lines[i] == l;
        assert(all_ascii(lines[i]));
        assert(lower_of(l) == ascii_lowered(l));
        assert(lower_of(query) == ascii_lowered(query));
        lemma_lowered_contains(l, query);
    }
}

/// An empty query keeps every line, whether case counts or not (without regard
/// to case, given that lowering an empty text leaves it empty, as `lowercase`
/// states).
pub proof fn lemma_empty_query_keeps_all(contents: Seq<char>, case_sensitive: bool)
    requires
        !case_sensitive ==> lower_of(Seq::empty()) == Seq::<char>::empty(),
    ensures
        matching_lines(lines_of(contents), Seq::empty(), case_sensitive) == lines_of(contents),
{
    lemma_empty_query_lines(lines_of(contents), case_sensitive);
}

proof fn lemma_empty_query_lines(lines: Seq<Seq<char>>, case_sensitive: bool)
    requires
        !case_sensitive ==> lower_of(Seq::empty()) == Seq::<char>::empty(),
    ensures
        matching_lines(lines, Seq::empty(), case_sensitive) == lines,
    decreases lines.len(),
{
    if lines.len() > 0 {
        let l = lines.last();
        lemma_empty_query_lines(lines.drop_last(), case_sensitive);
        assert(occurs_at(l, Seq::empty(), 0)) by {
            assert(l.subrange(0, 0) =~= Seq::<char>::empty());
        }
        if !case_sensitive {
            assert(occurs_at(lower_of(l), lower_of(Seq::empty()), 0)) by {
                assert(lower_of(l).subrange(0, 0) =~= Seq::<char>::empty());
            }
        }
        assert(lines.drop_last().push(l) =~= lines);
    }
}

} // verus!
