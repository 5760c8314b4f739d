//! Laws of the library: what the encoder guarantees for every input, how the
//! replacement limit behaves, and what the rewrite leaves untouched.
use vstd::prelude::*;

use crate::text::br_mark;
use crate::text::contains_sub;
use crate::text::cr;
use crate::text::crlf;
use crate::text::encode_spec;
use crate::text::find_spec;
use crate::text::lemma_find_spec;
use crate::text::lf;
use crate::text::match_at;
use crate::text::replace_all_spec;
use crate::text::replace_limited;
use crate::text::replacen_spec;
use crate::text::string_close;
use crate::text::string_open;
use crate::text::tab_ch;
use crate::text::tab_mark;
use crate::model::chosen_content;
use crate::model::load_ok;
use crate::model::names_ok;
use crate::model::output_readable;
use crate::model::required_parts_present;
use crate::model::tracked_name;
use crate::model::doc_name;
use crate::model::footer_pat;
use crate::model::header_pat;
use crate::model::lookup;
use crate::model::media_names;
use crate::model::media_prefix;
use crate::model::output_entries;
use crate::model::rels_name;
use crate::model::ModelView;
use crate::ziparc::names_unique;
use crate::ziparc::utf8_ok;
use crate::ziparc::zip_data_ok;
use crate::ziparc::zip_parse;

verus! {

/// No character of `p` occurs in `w`.
pub open spec fn chars_disjoint(p: Seq<u8>, w: Seq<u8>) -> bool {
    forall|x: int, y: int| 0 <= x < p.len() && 0 <= y < w.len() ==> p[x] != w[y]
}

/// A one-character pattern matches at `j` exactly when that character stands there.
proof fn lemma_match_single(s: Seq<u8>, c: u8, j: int)
    requires
        0 <= j < s.len(),
    ensures
        match_at(s, seq![c], j) <==> s[j] == c,
{
    if s[j] == c {
        assert(s.subrange(j, j + 1) =~= seq![c]);
    }
    if match_at(s, seq![c], j) {
        assert(s.subrange(j, j + 1)[0] == c);
    }
}

/// A sequence holds a one-character pattern exactly when it holds the character.
proof fn lemma_single_contains(s: Seq<u8>, c: u8)
    ensures
        contains_sub(s, seq![c]) <==> s.contains(c),
{
    if s.contains(c) {
        let i = choose|i: int| 0 <= i < s.len() && s[i] == c;
        lemma_match_single(s, c, i);
        assert(match_at(s, seq![c], i));
    }
    if contains_sub(s, seq![c]) {
        let i = choose|i: int| match_at(s, seq![c], i);
        lemma_match_single(s, c, i);
        assert(0 <= i < s.len() && s[i] == c);
    }
}

/// A substring of the left part stands in the concatenation.
proof fn lemma_contains_left(a: Seq<u8>, b: Seq<u8>, w: Seq<u8>)
    requires
        contains_sub(a, w),
    ensures
        contains_sub(a + b, w),
{
    let i = choose|i: int| match_at(a, w, i);
    assert((a + b).subrange(i, i + w.len() as int) =~= a.subrange(i, i + w.len() as int));
    assert(match_at(a + b, w, i));
}

/// A substring of the right part stands in the concatenation.
proof fn lemma_contains_right(a: Seq<u8>, b: Seq<u8>, w: Seq<u8>)
    requires
        contains_sub(b, w),
    ensures
        contains_sub(a + b, w),
{
    let i = choose|i: int| match_at(b, w, i);
    assert((a + b).subrange(a.len() + i, a.len() + i + w.len() as int) =~= b.subrange(
        i,
        i + w.len() as int,
    ));
    assert(match_at(a + b, w, a.len() + i));
}

/// Replacing a pattern that shares no character with `w` cannot destroy an
/// occurrence of `w`.
proof fn lemma_replace_all_preserves(s: Seq<u8>, old: Seq<u8>, new: Seq<u8>, w: Seq<u8>)
    requires
        old.len() >= 1,
        w.len() >= 1,
        contains_sub(s, w),
        chars_disjoint(old, w),
    ensures
        contains_sub(replace_all_spec(s, old, new), w),
    decreases s.len(),
{
    lemma_find_spec(s, old);
    match find_spec(s, old) {
        None => {},
        Some(i) => {
            let j = choose|j: int| match_at(s, w, j);
            assert(j + w.len() <= i || j >= i + old.len()) by {
                if j < i + old.len() && i < j + w.len() {
                    let p = if i >= j { i } else { j };
                    assert(s.subrange(i, i + old.len() as int)[p - i] == s[p]);
                    assert(s.subrange(j, j + w.len() as int)[p - j] == s[p]);
                    assert(old[p - i] == w[p - j]);
                    assert(false);
                }
            }
            let rest = replace_all_spec(s.skip(i + old.len() as int), old, new);
            if j + w.len() <= i {
                assert(s.take(i).subrange(j, j + w.len() as int) =~= s.subrange(
                    j,
                    j + w.len() as int,
                ));
                assert(match_at(s.take(i), w, j));
                lemma_contains_left(s.take(i), new, w);
                lemma_contains_left(s.take(i) + new, rest, w);
            } else {
                let t = s.skip(i + old.len() as int);
                assert(t.subrange(
                    j - i - old.len(),
                    j - i - old.len() + w.len() as int,
                ) =~= s.subrange(j, j + w.len() as int));
                assert(match_at(t, w, j - i - old.len()));
                lemma_replace_all_preserves(t, old, new, w);
                lemma_contains_right(s.take(i) + new, rest, w);
            }
        },
    }
}

/// Where the pattern occurs, the replacement text stands in the result.
proof fn lemma_replace_all_hits(s: Seq<u8>, old: Seq<u8>, new: Seq<u8>)
    requires
        old.len() >= 1,
        contains_sub(s, old),
    ensures
        contains_sub(replace_all_spec(s, old, new), new),
{
    lemma_find_spec(s, old);
    match find_spec(s, old) {
        None => {
            assert(false);
        },
        Some(i) => {
            let rest = replace_all_spec(s.skip(i + old.len() as int), old, new);
            assert((s.take(i) + new).subrange(i, i + new.len() as int) =~= new);
            assert(match_at(s.take(i) + new, new, i));
            lemma_contains_left(s.take(i) + new, rest, new);
        },
    }
}

/// A pass either changes nothing or leaves the replacement text in the result.
proof fn lemma_replace_all_match_or_same(s: Seq<u8>, old: Seq<u8>, new: Seq<u8>)
    requires
        old.len() >= 1,
    ensures
        replace_all_spec(s, old, new) == s || contains_sub(replace_all_spec(s, old, new), new),
{
    lemma_find_spec(s, old);
    match find_spec(s, old) {
        None => {},
        Some(i) => {
            lemma_replace_all_hits(s, old, new);
        },
    }
}

/// A character that the pattern lacks survives the pass.
proof fn lemma_replace_all_keeps_char(s: Seq<u8>, old: Seq<u8>, new: Seq<u8>, c: u8)
    requires
        old.len() >= 1,
        s.contains(c),
        !old.contains(c),
    ensures
        replace_all_spec(s, old, new).contains(c),
{
    lemma_single_contains(s, c);
    assert(chars_disjoint(old, seq![c])) by {
        assert forall|x: int, y: int|
            0 <= x < old.len() && 0 <= y < 1 implies old[x] != seq![c][y] by {
            assert(seq![c][y] == c);
            if old[x] == c {
                assert(old.contains(c));
            }
        }
    }
    lemma_replace_all_preserves(s, old, new, seq![c]);
    lemma_single_contains(replace_all_spec(s, old, new), c);
}

/// Replacing every occurrence of a single character by text that lacks it
/// leaves no occurrence of that character.
proof fn lemma_replace_all_removes_char(s: Seq<u8>, c: u8, new: Seq<u8>)
    requires
        !new.contains(c),
    ensures
        !replace_all_spec(s, seq![c], new).contains(c),
    decreases s.len(),
{
    let old = seq![c];
    lemma_find_spec(s, old);
    match find_spec(s, old) {
        None => {
            lemma_single_contains(s, c);
            assert(!s.contains(c));
        },
        Some(i) => {
            let t = s.skip(i + 1);
            lemma_replace_all_removes_char(t, c, new);
            let rest = replace_all_spec(t, old, new);
            let out = s.take(i) + new + rest;
            assert(replace_all_spec(s, old, new) == out);
            assert forall|k: int| 0 <= k < out.len() implies out[k] != c by {
                if k < i {
                    assert(out[k] == s[k]);
                    lemma_match_single(s, c, k);
                    assert(!match_at(s, old, k));
                } else if k < i + new.len() {
                    assert(out[k] == new[k - i]);
                    if new[k - i] == c {
                        assert(new.contains(c));
                    }
                } else {
                    assert(out[k] == rest[k - i - new.len()]);
                    if rest[k - i - new.len()] == c {
                        assert(rest.contains(c));
                    }
                }
            }
            if out.contains(c) {
                let k = choose|k: int| 0 <= k < out.len() && out[k] == c;
                assert(false);
            }
        },
    }
}

/// A pass whose pattern and replacement both lack a character introduces no
/// occurrence of it.
proof fn lemma_replace_all_no_new_char(s: Seq<u8>, old: Seq<u8>, new: Seq<u8>, c: u8)
    requires
        old.len() >= 1,
        !s.contains(c),
        !new.contains(c),
    ensures
        !replace_all_spec(s, old, new).contains(c),
    decreases s.len(),
{
    lemma_find_spec(s, old);
    match find_spec(s, old) {
        None => {},
        Some(i) => {
            let t = s.skip(i + old.len() as int);
            assert(!t.contains(c)) by {
                if t.contains(c) {
                    let k = choose|k: int| 0 <= k < t.len() && t[k] == c;
                    assert(s[i + old.len() + k] == c);
                    assert(s.contains(c));
                }
            }
            lemma_replace_all_no_new_char(t, old, new, c);
            let rest = replace_all_spec(t, old, new);
            let out = s.take(i) + new + rest;
            assert forall|k: int| 0 <= k < out.len() implies out[k] != c by {
                if k < i {
                    assert(out[k] == s[k]);
                    assert(s.contains(c) || s[k] != c);
                } else if k < i + new.len() {
                    assert(out[k] == new[k - i]);
                    if new[k - i] == c {
                        assert(new.contains(c));
                    }
                } else {
                    assert(out[k] == rest[k - i - new.len()]);
                    if rest[k - i - new.len()] == c {
                        assert(rest.contains(c));
                    }
                }
            }
            if out.contains(c) {
                let k = choose|k: int| 0 <= k < out.len() && out[k] == c;
                assert(false);
            }
        },
    }
}

/// The byte values of the fixed patterns and marks, as element facts.
proof fn lemma_literal_chars()
    ensures
        !string_open().contains(13u8),
        !string_open().contains(10u8),
        !string_open().contains(9u8),
        !string_close().contains(13u8),
        !string_close().contains(10u8),
        !string_close().contains(9u8),
        !crlf().contains(9u8),
        !br_mark().contains(13u8),
        !br_mark().contains(10u8),
        !br_mark().contains(9u8),
        !tab_mark().contains(13u8),
        !tab_mark().contains(10u8),
        !tab_mark().contains(9u8),
        chars_disjoint(string_open(), crlf()),
        chars_disjoint(string_close(), crlf()),
        chars_disjoint(cr(), br_mark()),
        chars_disjoint(lf(), br_mark()),
        chars_disjoint(tab_ch(), br_mark()),
{
    assert(!string_open().contains(13u8)) by {
        if string_open().contains(13u8) {
            let k = choose|k: int| 0 <= k < string_open().len() && string_open()[k] == 13u8;
            assert(false);
        }
    }
    assert(!string_open().contains(10u8)) by {
        if string_open().contains(10u8) {
            let k = choose|k: int| 0 <= k < string_open().len() && string_open()[k] == 10u8;
            assert(false);
        }
    }
    assert(!string_open().contains(9u8)) by {
        if string_open().contains(9u8) {
            let k = choose|k: int| 0 <= k < string_open().len() && string_open()[k] == 9u8;
            assert(false);
        }
    }
    assert(!string_close().contains(13u8)) by {
        if string_close().contains(13u8) {
            let k = choose|k: int| 0 <= k < string_close().len() && string_close()[k] == 13u8;
            assert(false);
        }
    }
    assert(!string_close().contains(10u8)) by {
        if string_close().contains(10u8) {
            let k = choose|k: int| 0 <= k < string_close().len() && string_close()[k] == 10u8;
            assert(false);
        }
    }
    assert(!string_close().contains(9u8)) by {
        if string_close().contains(9u8) {
            let k = choose|k: int| 0 <= k < string_close().len() && string_close()[k] == 9u8;
            assert(false);
        }
    }
    assert(!crlf().contains(9u8)) by {
        if crlf().contains(9u8) {
            let k = choose|k: int| 0 <= k < crlf().len() && crlf()[k] == 9u8;
            assert(false);
        }
    }
    assert(!br_mark().contains(13u8)) by {
        if br_mark().contains(13u8) {
            let k = choose|k: int| 0 <= k < br_mark().len() && br_mark()[k] == 13u8;
            assert(false);
        }
    }
    assert(!br_mark().contains(10u8)) by {
        if br_mark().contains(10u8) {
            let k = choose|k: int| 0 <= k < br_mark().len() && br_mark()[k] == 10u8;
            assert(false);
        }
    }
    assert(!br_mark().contains(9u8)) by {
        if br_mark().contains(9u8) {
            let k = choose|k: int| 0 <= k < br_mark().len() && br_mark()[k] == 9u8;
            assert(false);
        }
    }
    assert(!tab_mark().contains(13u8)) by {
        if tab_mark().contains(13u8) {
            let k = choose|k: int| 0 <= k < tab_mark().len() && tab_mark()[k] == 13u8;
            assert(false);
        }
    }
    assert(!tab_mark().contains(10u8)) by {
        if tab_mark().contains(10u8) {
            let k = choose|k: int| 0 <= k < tab_mark().len() && tab_mark()[k] == 10u8;
            assert(false);
        }
    }
    assert(!tab_mark().contains(9u8)) by {
        if tab_mark().contains(9u8) {
            let k = choose|k: int| 0 <= k < tab_mark().len() && tab_mark()[k] == 9u8;
            assert(false);
        }
    }
}

/// Law: text containing a Windows line break (a carriage-return/line-feed
/// pair) encodes to text that carries the line-break markup element.
pub proof fn law_windows_break(t: Seq<u8>)
    requires
        contains_sub(t, crlf()),
    ensures
        contains_sub(encode_spec(t), br_mark()),
{
    lemma_literal_chars();
    let s1 = replace_all_spec(t, string_open(), Seq::empty());
    let s2 = replace_all_spec(s1, string_close(), Seq::empty());
    let s3 = replace_all_spec(s2, crlf(), br_mark());
    let s4 = replace_all_spec(s3, cr(), br_mark());
    let s5 = replace_all_spec(s4, lf(), br_mark());
    lemma_replace_all_preserves(t, string_open(), Seq::empty(), crlf());
    lemma_replace_all_preserves(s1, string_close(), Seq::empty(), crlf());
    lemma_replace_all_hits(s2, crlf(), br_mark());
    lemma_replace_all_preserves(s3, cr(), br_mark(), br_mark());
    lemma_replace_all_preserves(s4, lf(), br_mark(), br_mark());
    lemma_replace_all_preserves(s5, tab_ch(), tab_mark(), br_mark());
}

/// Law: the encoded text never holds a raw carriage return, line feed or tab.
pub proof fn law_no_raw_controls(t: Seq<u8>)
    ensures
        !encode_spec(t).contains(13u8),
        !encode_spec(t).contains(10u8),
        !encode_spec(t).contains(9u8),
{
    lemma_literal_chars();
    let s1 = replace_all_spec(t, string_open(), Seq::empty());
    let s2 = replace_all_spec(s1, string_close(), Seq::empty());
    let s3 = replace_all_spec(s2, crlf(), br_mark());
    let s4 = replace_all_spec(s3, cr(), br_mark());
    let s5 = replace_all_spec(s4, lf(), br_mark());
    assert(cr() =~= seq![13u8]);
    assert(lf() =~= seq![10u8]);
    assert(tab_ch() =~= seq![9u8]);
    lemma_replace_all_removes_char(s3, 13u8, br_mark());
    lemma_replace_all_no_new_char(s4, lf(), br_mark(), 13u8);
    lemma_replace_all_no_new_char(s5, tab_ch(), tab_mark(), 13u8);
    lemma_replace_all_removes_char(s4, 10u8, br_mark());
    lemma_replace_all_no_new_char(s5, tab_ch(), tab_mark(), 10u8);
    lemma_replace_all_removes_char(s5, 9u8, tab_mark());
}

/// Law: text containing a lone carriage return or a lone line feed encodes to
/// text that carries the line-break markup element.
pub proof fn law_lone_break(t: Seq<u8>)
    requires
        t.contains(13u8) || t.contains(10u8),
    ensures
        contains_sub(encode_spec(t), br_mark()),
{
    lemma_literal_chars();
    let s1 = replace_all_spec(t, string_open(), Seq::empty());
    let s2 = replace_all_spec(s1, string_close(), Seq::empty());
    let s3 = replace_all_spec(s2, crlf(), br_mark());
    let s4 = replace_all_spec(s3, cr(), br_mark());
    let s5 = replace_all_spec(s4, lf(), br_mark());
    assert(cr() =~= seq![13u8]);
    assert(lf() =~= seq![10u8]);
    if t.contains(13u8) {
        lemma_replace_all_keeps_char(t, string_open(), Seq::empty(), 13u8);
        lemma_replace_all_keeps_char(s1, string_close(), Seq::empty(), 13u8);
        lemma_replace_all_match_or_same(s2, crlf(), br_mark());
        if s3 == s2 {
            lemma_single_contains(s3, 13u8);
            lemma_replace_all_hits(s3, cr(), br_mark());
            lemma_replace_all_preserves(s4, lf(), br_mark(), br_mark());
            lemma_replace_all_preserves(s5, tab_ch(), tab_mark(), br_mark());
        } else {
            lemma_replace_all_preserves(s3, cr(), br_mark(), br_mark());
            lemma_replace_all_preserves(s4, lf(), br_mark(), br_mark());
            lemma_replace_all_preserves(s5, tab_ch(), tab_mark(), br_mark());
        }
    } else {
        lemma_replace_all_keeps_char(t, string_open(), Seq::empty(), 10u8);
        lemma_replace_all_keeps_char(s1, string_close(), Seq::empty(), 10u8);
        lemma_replace_all_match_or_same(s2, crlf(), br_mark());
        if s3 == s2 {
            lemma_replace_all_keeps_char(s3, cr(), br_mark(), 10u8);
            lemma_single_contains(s4, 10u8);
            lemma_replace_all_hits(s4, lf(), br_mark());
            lemma_replace_all_preserves(s5, tab_ch(), tab_mark(), br_mark());
        } else {
            lemma_replace_all_preserves(s3, cr(), br_mark(), br_mark());
            lemma_replace_all_preserves(s4, lf(), br_mark(), br_mark());
            lemma_replace_all_preserves(s5, tab_ch(), tab_mark(), br_mark());
        }
    }
}

/// Law: text containing a tab encodes to text that carries the run-splitting
/// tab markup sequence in its place.
pub proof fn law_tab(t: Seq<u8>)
    requires
        t.contains(9u8),
    ensures
        contains_sub(encode_spec(t), tab_mark()),
{
    lemma_literal_chars();
    let s1 = replace_all_spec(t, string_open(), Seq::empty());
    let s2 = replace_all_spec(s1, string_close(), Seq::empty());
    let s3 = replace_all_spec(s2, crlf(), br_mark());
    let s4 = replace_all_spec(s3, cr(), br_mark());
    let s5 = replace_all_spec(s4, lf(), br_mark());
    assert(cr() =~= seq![13u8]);
    assert(lf() =~= seq![10u8]);
    assert(tab_ch() =~= seq![9u8]);
    lemma_replace_all_keeps_char(t, string_open(), Seq::empty(), 9u8);
    lemma_replace_all_keeps_char(s1, string_close(), Seq::empty(), 9u8);
    lemma_replace_all_keeps_char(s2, crlf(), br_mark(), 9u8);
    lemma_replace_all_keeps_char(s3, cr(), br_mark(), 9u8);
    lemma_replace_all_keeps_char(s4, lf(), br_mark(), 9u8);
    lemma_single_contains(s5, 9u8);
    lemma_replace_all_hits(s5, tab_ch(), tab_mark());
}

/// Law: with a limit of one, only the leftmost occurrence changes; everything
/// before it and everything after it is kept as it stands.
pub proof fn law_replace_first(s: Seq<u8>, old: Seq<u8>, new: Seq<u8>, i: int)
    requires
        old.len() >= 1,
        find_spec(s, old) == Some(i),
    ensures
        replace_limited(s, old, new, 1) == s.take(i) + new + s.skip(i + old.len() as int),
{
    lemma_find_spec(s, old);
    assert(replacen_spec(s.skip(i + old.len() as int), old, new, 0nat) == s.skip(
        i + old.len() as int,
    ));
}

/// Law: a limit of zero means unlimited: every occurrence is replaced, left
/// to right and without overlap.
pub proof fn law_replace_unlimited(s: Seq<u8>, old: Seq<u8>, new: Seq<u8>)
    ensures
        replace_limited(s, old, new, 0) == replace_all_spec(s, old, new),
{
}

/// Law: a search string that does not occur leaves the text unchanged, under
/// every limit.
pub proof fn law_replace_absent(s: Seq<u8>, old: Seq<u8>, new: Seq<u8>, limit: nat)
    requires
        old.len() >= 1,
        !contains_sub(s, old),
    ensures
        replace_limited(s, old, new, limit) == s,
{
    lemma_find_spec(s, old);
    match find_spec(s, old) {
        None => {},
        Some(i) => {
            assert(match_at(s, old, i));
            assert(false);
        },
    }
}

/// Law: the rewrite keeps every entry's name and order, and an entry that is
/// not the main document, the relationship manifest, nor a loaded header or
/// footer part keeps its content byte-for-byte.
pub proof fn law_untracked_preserved(m: ModelView, i: int)
    requires
        0 <= i < m.entries.len(),
        m.entries[i].0 != doc_name(),
        m.entries[i].0 != rels_name(),
        !(contains_sub(m.entries[i].0, header_pat()) && lookup(m.headers, m.entries[i].0) is Some),
        !(contains_sub(m.entries[i].0, footer_pat()) && lookup(m.footers, m.entries[i].0) is Some),
    ensures
        output_entries(m).len() == m.entries.len(),
        output_entries(m)[i].0 == m.entries[i].0,
        output_entries(m)[i].1 == m.entries[i].1,
{
    assert(chosen_content(m, m.entries[i].0, m.entries[i].1) == m.entries[i].1);
}

/// A lookup through two entry lists whose names agree pointwise hits the
/// same index in both.
proof fn lemma_lookup_aligned(es1: Seq<(Seq<u8>, Seq<u8>)>, es2: Seq<(Seq<u8>, Seq<u8>)>, name: Seq<u8>)
    requires
        es1.len() == es2.len(),
        forall|k: int| 0 <= k < es1.len() ==> (#[trigger] es1[k]).0 == es2[k].0,
    ensures
        lookup(es1, name) is Some <==> lookup(es2, name) is Some,
        lookup(es1, name) is Some ==> exists|k: int|
            0 <= k < es1.len() && (#[trigger] es1[k]).0 == name && lookup(es1, name) == Some(
                es1[k].1,
            ) && lookup(es2, name) == Some(es2[k].1),
    decreases es1.len(),
{
    if es1.len() == 0 {
    } else if es1[0].0 == name {
        assert(lookup(es1, name) == Some(es1[0].1));
        assert(lookup(es2, name) == Some(es2[0].1));
    } else {
        let t1 = es1.skip(1);
        let t2 = es2.skip(1);
        assert forall|k: int| 0 <= k < t1.len() implies (#[trigger] t1[k]).0 == t2[k].0 by {
            assert(t1[k] == es1[k + 1]);
            assert(t2[k] == es2[k + 1]);
        }
        lemma_lookup_aligned(t1, t2, name);
        if lookup(t1, name) is Some {
            let k = choose|k: int|
                0 <= k < t1.len() && (#[trigger] t1[k]).0 == name && lookup(t1, name) == Some(
                    t1[k].1,
                ) && lookup(t2, name) == Some(t2[k].1);
            assert(es1[k + 1] == t1[k]);
            assert(es2[k + 1] == t2[k]);
        }
    }
}

/// Law: write-then-reopen reproduces the model. The rewrite ensures of its
/// output exactly the first two hypotheses (the parse result and the
/// readability of every output entry); whenever the model's archive invariant
/// also holds, its required parts are present, and what the rewrite emits for
/// the tracked parts is UTF-8 text, the output satisfies the whole
/// load-success condition, and the re-opened package's main content and
/// relationship manifest are exactly the model's current values.
pub proof fn law_round_trip(m: ModelView, out: Seq<u8>)
    requires
        names_unique(m.entries),
        required_parts_present(m.entries),
        zip_parse(out) == Some(output_entries(m)),
        output_readable(out, output_entries(m).len() as int),
        forall|i: int|
            0 <= i < m.entries.len() && tracked_name((#[trigger] m.entries[i]).0) ==> utf8_ok(
                chosen_content(m, m.entries[i].0, m.entries[i].1),
            ),
    ensures
        load_ok(out, output_entries(m)),
        lookup(output_entries(m), doc_name()) == Some(m.contents),
        lookup(output_entries(m), rels_name()) == Some(m.links),
{
    let oes = output_entries(m);
    assert(names_ok(out, oes.len() as int));
    assert(oes.len() == m.entries.len());
    assert forall|k: int| 0 <= k < m.entries.len() implies (#[trigger] m.entries[k]).0
        == oes[k].0 && oes[k].1 == chosen_content(m, m.entries[k].0, m.entries[k].1) by {}
    assert(names_unique(oes)) by {
        assert forall|a: int, b: int| 0 <= a < b < oes.len() implies oes[a].0 != oes[b].0 by {
            assert(m.entries[a].0 != m.entries[b].0);
        }
    }
    lemma_lookup_aligned(m.entries, oes, doc_name());
    let kd = choose|k: int|
        0 <= k < m.entries.len() && (#[trigger] m.entries[k]).0 == doc_name() && lookup(
            m.entries,
            doc_name(),
        ) == Some(m.entries[k].1) && lookup(oes, doc_name()) == Some(oes[k].1);
    assert(chosen_content(m, m.entries[kd].0, m.entries[kd].1) == m.contents);
    lemma_lookup_aligned(m.entries, oes, rels_name());
    let kr = choose|k: int|
        0 <= k < m.entries.len() && (#[trigger] m.entries[k]).0 == rels_name() && lookup(
            m.entries,
            rels_name(),
        ) == Some(m.entries[k].1) && lookup(oes, rels_name()) == Some(oes[k].1);
    assert(chosen_content(m, m.entries[kr].0, m.entries[kr].1) == m.links);
    assert forall|i: int|
        0 <= i < oes.len() && tracked_name((#[trigger] oes[i]).0) implies zip_data_ok(out, i)
        && utf8_ok(oes[i].1) by {
        assert(tracked_name(m.entries[i].0));
    }
    assert(load_ok(out, oes));
}

/// A sequence's filtered form holds exactly the elements that pass the test.
proof fn lemma_filter_membership<A>(s: Seq<A>, pred: spec_fn(A) -> bool, x: A)
    ensures
        s.filter(pred).contains(x) <==> s.contains(x) && pred(x),
    decreases s.len(),
{
    reveal(Seq::filter);
    if s.len() == 0 {
    } else {
        let rest = s.drop_last();
        lemma_filter_membership(rest, pred, x);
        assert(s.contains(x) <==> rest.contains(x) || s.last() == x) by {
            if s.contains(x) {
                let k = choose|k: int| 0 <= k < s.len() && s[k] == x;
                if k < s.len() - 1 {
                    assert(rest[k] == x);
                    assert(rest.contains(x));
                }
            }
            if rest.contains(x) {
                let k = choose|k: int| 0 <= k < rest.len() && rest[k] == x;
                assert(s[k] == x);
            }
        }
        if pred(s.last()) {
            let f = rest.filter(pred);
            assert(s.filter(pred) == f.push(s.last()));
            assert(f.push(s.last()).contains(x) <==> f.contains(x) || s.last() == x) by {
                if f.push(s.last()).contains(x) {
                    let k = choose|k: int| 0 <= k < f.push(s.last()).len() && f.push(s.last())[k] == x;
                    if k < f.len() {
                        assert(f[k] == x);
                    }
                }
                if f.contains(x) {
                    let k = choose|k: int| 0 <= k < f.len() && f[k] == x;
                    assert(f.push(s.last())[k] == x);
                }
                assert(f.push(s.last())[f.len() as int] == s.last());
            }
        }
    }
}

/// Law: a name is among the media asset names exactly when some entry bears
/// that name and the name carries the media folder prefix.
pub proof fn law_media_assets(es: Seq<(Seq<u8>, Seq<u8>)>, name: Seq<u8>)
    ensures
        media_names(es).contains(name) <==> (match_at(name, media_prefix(), 0) && exists|k: int|
            0 <= k < es.len() && es[k].0 == name),
{
    let mapped = es.map_values(|e: (Seq<u8>, Seq<u8>)| e.0);
    let pred = |n: Seq<u8>| match_at(n, media_prefix(), 0);
    lemma_filter_membership(mapped, pred, name);
    assert(mapped.contains(name) <==> exists|k: int| 0 <= k < es.len() && es[k].0 == name) by {
        if mapped.contains(name) {
            let k = choose|k: int| 0 <= k < mapped.len() && mapped[k] == name;
            assert(es[k].0 == name);
        }
        if exists|k: int| 0 <= k < es.len() && es[k].0 == name {
            let k = choose|k: int| 0 <= k < es.len() && es[k].0 == name;
            assert(mapped[k] == name);
        }
    }
}

} // verus!

