//! Byte-level text machinery: literal substring search and replacement,
//! and the encoder that turns control characters into document markup.
use vstd::prelude::*;

verus! {

/// True when `p` occurs in `s` starting at index `i`.
pub open spec fn match_at(s: Seq<u8>, p: Seq<u8>, i: int) -> bool {
    0 <= i && i + p.len() <= s.len() && s.subrange(i, i + p.len() as int) == p
}

/// True when `p` occurs somewhere in `s`.
pub open spec fn contains_sub(s: Seq<u8>, p: Seq<u8>) -> bool {
    exists|i: int| match_at(s, p, i)
}

/// Index of the leftmost occurrence of `p` in `s`, if any.
pub open spec fn find_spec(s: Seq<u8>, p: Seq<u8>) -> Option<int>
    decreases s.len(),
{
    if p.len() > s.len() {
        None
    } else if s.subrange(0, p.len() as int) == p {
        Some(0)
    } else if s.len() == 0 {
        None
    } else {
        match find_spec(s.skip(1), p) {
            Some(i) => Some(i + 1),
            None => None,
        }
    }
}

/// `find_spec` returns exactly the leftmost match, or `None` when no match exists.
pub proof fn lemma_find_spec(s: Seq<u8>, p: Seq<u8>)
    ensures
        match find_spec(s, p) {
            Some(i) => match_at(s, p, i) && forall|j: int| 0 <= j < i ==> !match_at(s, p, j),
            None => !contains_sub(s, p),
        },
    decreases s.len(),
{
    if p.len() > s.len() {
        assert(!contains_sub(s, p));
    } else if s.subrange(0, p.len() as int) == p {
        assert(match_at(s, p, 0));
    } else if s.len() == 0 {
        assert(p.len() == 0);
        assert(s.subrange(0, 0) =~= p);
        assert(false);
    } else {
        lemma_find_spec(s.skip(1), p);
        let t = s.skip(1);
        assert forall|j: int| 0 <= j implies match_at(s, p, j + 1) <==> match_at(t, p, j) by {
            if 0 <= j && j + p.len() <= t.len() {
                assert(s.subrange(j + 1, j + 1 + p.len() as int) =~= t.subrange(j, j + p.len() as int));
            }
        }
        match find_spec(t, p) {
            Some(i) => {
                assert(match_at(s, p, i + 1));
                assert forall|j: int| 0 <= j < i + 1 implies !match_at(s, p, j) by {
                    if j == 0 {
                        assert(!match_at(s, p, 0));
                    } else {
                        assert(!match_at(t, p, j - 1));
                    }
                }
            },
            None => {
                assert forall|j: int| true implies !match_at(s, p, j) by {
                    if j == 0 {
                        assert(!match_at(s, p, 0));
                    } else if j >= 1 {
                        assert(!match_at(t, p, j - 1));
                    }
                }
            },
        }
    }
}

/// Left-to-right, non-overlapping replacement of `old` by `new` in `s`,
/// stopping after at most `rem` replacements. An empty `old` matches at
/// every position, including the end of `s`.
pub open spec fn replacen_spec(s: Seq<u8>, old: Seq<u8>, new: Seq<u8>, rem: nat) -> Seq<u8>
    decreases s.len(),
{
    if rem == 0 {
        s
    } else if old.len() == 0 {
        if s.len() == 0 {
            new
        } else {
            new + s.take(1) + replacen_spec(s.skip(1), old, new, (rem - 1) as nat)
        }
    } else {
        match find_spec(s, old) {
            None => s,
            Some(i) => if 0 <= i && i + old.len() <= s.len() {
                s.take(i) + new + replacen_spec(s.skip(i + old.len() as int), old, new, (rem - 1) as nat)
            } else {
                s
            },
        }
    }
}

/// Replacement of every occurrence, left to right and non-overlapping.
pub open spec fn replace_all_spec(s: Seq<u8>, old: Seq<u8>, new: Seq<u8>) -> Seq<u8>
    decreases s.len(),
{
    if old.len() == 0 {
        if s.len() == 0 {
            new
        } else {
            new + s.take(1) + replace_all_spec(s.skip(1), old, new)
        }
    } else {
        match find_spec(s, old) {
            None => s,
            Some(i) => if 0 <= i && i + old.len() <= s.len() {
                s.take(i) + new + replace_all_spec(s.skip(i + old.len() as int), old, new)
            } else {
                s
            },
        }
    }
}

/// Replacement with the operation's limit convention: a limit of zero
/// means every occurrence is replaced.
pub open spec fn replace_limited(s: Seq<u8>, old: Seq<u8>, new: Seq<u8>, limit: nat) -> Seq<u8> {
    if limit == 0 {
        replace_all_spec(s, old, new)
    } else {
        replacen_spec(s, old, new, limit)
    }
}

/// What a partial replacement pass still owes on the unprocessed suffix `t`,
/// after `done` replacements have been made under `limit`.
pub open spec fn rem_spec(t: Seq<u8>, old: Seq<u8>, new: Seq<u8>, limit: nat, done: nat) -> Seq<u8> {
    if limit == 0 {
        replace_all_spec(t, old, new)
    } else if done < limit {
        replacen_spec(t, old, new, (limit - done) as nat)
    } else {
        t
    }
}

/// A match of `p` at offset `k` of the suffix `s.skip(i)` is a match at `i + k` of `s`.
proof fn lemma_match_at_skip(s: Seq<u8>, p: Seq<u8>, i: int, k: int)
    requires
        0 <= i <= s.len(),
        0 <= k,
    ensures
        match_at(s, p, i + k) <==> match_at(s.skip(i), p, k),
{
    if k + p.len() <= s.len() - i {
        assert(s.skip(i).subrange(k, k + p.len() as int) =~= s.subrange(i + k, i + k + p.len() as int));
    }
}

/// Whether `pat` occurs in `s` at index `j`.
pub fn match_here(s: &Vec<u8>, pat: &Vec<u8>, j: usize) -> (r: bool)
    requires
        j + pat@.len() <= s@.len(),
    ensures
        r <==> match_at(s@, pat@, j as int),
{
    let mut m: usize = 0;
    while m < pat.len()
        invariant
            m <= pat@.len(),
            j + pat@.len() <= s@.len(),
            s@.len() == s.len(),
            forall|l: int| 0 <= l < m ==> s@[j + l] == pat@[l],
        decreases pat@.len() - m,
    {
        if s[j + m] != pat[m] {
            proof {
                if match_at(s@, pat@, j as int) {
                    assert(s@.subrange(j as int, j + pat@.len() as int)[m as int] == pat@[m as int]);
                }
            }
            return false;
        }
        m += 1;
    }
    proof {
        assert(s@.subrange(j as int, j + pat@.len() as int) =~= pat@);
    }
    true
}

/// Leftmost occurrence of `pat` in `s` at or after index `from`.
pub fn find_from(s: &Vec<u8>, pat: &Vec<u8>, from: usize) -> (r: Option<usize>)
    requires
        from <= s@.len(),
        pat@.len() >= 1,
    ensures
        match r {
            Some(j) => from <= j && match_at(s@, pat@, j as int)
                && (forall|k: int| from <= k < j ==> !match_at(s@, pat@, k)),
            None => forall|k: int| from <= k ==> !match_at(s@, pat@, k),
        },
{
    if pat.len() > s.len() {
        return None;
    }
    let mut j = from;
    while j <= s.len() - pat.len()
        invariant
            from <= j,
            pat@.len() >= 1,
            pat@.len() <= s@.len(),
            j <= s@.len(),
            forall|k: int| from <= k < j ==> !match_at(s@, pat@, k),
        decreases s@.len() - j,
    {
        if match_here(s, pat, j) {
            return Some(j);
        }
        j += 1;
    }
    None
}

/// Append `s[from..to]` to `out`.
fn copy_range(out: &mut Vec<u8>, s: &Vec<u8>, from: usize, to: usize)
    requires
        from <= to <= s@.len(),
    ensures
        final(out)@ == old(out)@ + s@.subrange(from as int, to as int),
{
    let mut k = from;
    while k < to
        invariant
            from <= k <= to <= s@.len(),
            out@ == old(out)@ + s@.subrange(from as int, k as int),
        decreases to - k,
    {
        out.push(s[k]);
        proof {
            assert(s@.subrange(from as int, k + 1) =~= s@.subrange(from as int, k as int).push(s@[k as int]));
        }
        k += 1;
    }
}

/// Left-to-right, non-overlapping replacement of `old` by `new` in `s`,
/// performing at most `limit` replacements; a `limit` of zero replaces
/// every occurrence.
pub fn replace_bytes(s: &Vec<u8>, old: &Vec<u8>, new: &Vec<u8>, limit: usize) -> (r: Vec<u8>)
    ensures
        r@ == replace_limited(s@, old@, new@, limit as nat),
{
    let ghost target = replace_limited(s@, old@, new@, limit as nat);
    let mut out: Vec<u8> = Vec::new();
    let mut i: usize = 0;
    let mut done: usize = 0;
    proof {
        assert(s@.skip(0) =~= s@);
        assert(out@ + rem_spec(s@, old@, new@, limit as nat, 0nat)
            =~= rem_spec(s@, old@, new@, limit as nat, 0nat));
    }
    if old.len() == 0 {
        while i < s.len() && (limit == 0 || done < limit)
            invariant
                old@.len() == 0,
                i <= s@.len(),
                done <= i,
                limit != 0 ==> done <= limit,
                out@ + rem_spec(s@.skip(i as int), old@, new@, limit as nat, done as nat) == target,
            decreases s@.len() - i,
        {
            let ghost t = s@.skip(i as int);
            let ghost out0 = out@;
            out.extend_from_slice(new.as_slice());
            out.push(s[i]);
            proof {
                let t1 = s@.skip(i + 1);
                assert(t.len() == s@.len() - i);
                assert(t.skip(1) =~= t1);
                assert(t.take(1) =~= seq![s@[i as int]]);
                let r0 = rem_spec(t, old@, new@, limit as nat, done as nat);
                let r1 = rem_spec(t1, old@, new@, limit as nat, (done + 1) as nat);
                if limit == 0 {
                    assert(r0 == new@ + t.take(1) + replace_all_spec(t.skip(1), old@, new@));
                    assert(r1 == replace_all_spec(t1, old@, new@));
                } else {
                    let rem = (limit - done) as nat;
                    assert(rem >= 1);
                    assert(r0 == new@ + t.take(1) + replacen_spec(t.skip(1), old@, new@, (rem - 1) as nat));
                    if done + 1 < limit {
                        assert(r1 == replacen_spec(t1, old@, new@, (rem - 1) as nat));
                    } else {
                        assert(r1 == t1);
                        assert(replacen_spec(t1, old@, new@, 0nat) == t1);
                    }
                }
                assert(r0 == new@ + t.take(1) + r1);
                assert(out@ =~= out0 + new@ + t.take(1));
                assert(out@ + r1 =~= out0 + r0);
            }
            i += 1;
            done += 1;
        }
        if limit == 0 || done < limit {
            let ghost out0 = out@;
            out.extend_from_slice(new.as_slice());
            proof {
                let t = s@.skip(i as int);
                assert(t =~= Seq::<u8>::empty());
                assert(rem_spec(t, old@, new@, limit as nat, done as nat) == new@);
                assert(out@ =~= out0 + new@);
                assert(out@ + t =~= out@);
            }
        } else {
            proof {
                assert(rem_spec(s@.skip(i as int), old@, new@, limit as nat, done as nat)
                    == s@.skip(i as int));
            }
        }
        while i < s.len()
            invariant
                i <= s@.len(),
                out@ + s@.skip(i as int) == target,
            decreases s@.len() - i,
        {
            out.push(s[i]);
            proof {
                assert(s@.skip(i as int) =~= seq![s@[i as int]] + s@.skip(i + 1));
                assert(out@ + s@.skip(i + 1) =~= target);
            }
            i += 1;
        }
        proof {
            assert(s@.skip(i as int) =~= Seq::<u8>::empty());
            assert(out@ + Seq::<u8>::empty() =~= out@);
        }
        return out;
    }
    loop
        invariant_except_break
            old@.len() >= 1,
            i <= s@.len(),
            done <= i,
            limit != 0 ==> done <= limit,
            out@ + rem_spec(s@.skip(i as int), old@, new@, limit as nat, done as nat) == target,
        ensures
            i <= s@.len(),
            out@ + s@.skip(i as int) == target,
        decreases s@.len() - i,
    {
        if limit != 0 && done == limit {
            break;
        }
        match find_from(s, old, i) {
            None => {
                proof {
                    let t = s@.skip(i as int);
                    lemma_find_spec(t, old@);
                    match find_spec(t, old@) {
                        Some(m) => {
                            lemma_match_at_skip(s@, old@, i as int, m);
                            assert(!match_at(s@, old@, i + m));
                            assert(false);
                        },
                        None => {},
                    }
                    assert(rem_spec(t, old@, new@, limit as nat, done as nat) == t);
                }
                break;
            },
            Some(j) => {
                proof {
                    let t = s@.skip(i as int);
                    lemma_find_spec(t, old@);
                    lemma_match_at_skip(s@, old@, i as int, j - i);
                    assert(match_at(t, old@, j - i));
                    match find_spec(t, old@) {
                        Some(m) => {
                            lemma_match_at_skip(s@, old@, i as int, m);
                            if m < j - i {
                                assert(!match_at(s@, old@, i + m));
                                assert(false);
                            }
                            if m > j - i {
                                assert(!match_at(t, old@, j - i));
                                assert(false);
                            }
                            assert(m == j - i);
                        },
                        None => {
                            assert(!contains_sub(t, old@));
                            assert(false);
                        },
                    }
                }
                let ghost out0 = out@;
                copy_range(&mut out, s, i, j);
                out.extend_from_slice(new.as_slice());
                proof {
                    let t = s@.skip(i as int);
                    let next = j + old@.len() as int;
                    assert(t.len() == s@.len() - i);
                    assert(s@.len() == s.len());
                    assert(t.take(j - i) =~= s@.subrange(i as int, j as int));
                    assert(t.skip(j - i + old@.len() as int) =~= s@.skip(next));
                    let r0 = rem_spec(t, old@, new@, limit as nat, done as nat);
                    let r1 = rem_spec(s@.skip(next), old@, new@, limit as nat, (done + 1) as nat);
                    assert(find_spec(t, old@) == Some(j - i));
                    assert(t.skip(j - i + old@.len() as int) == s@.skip(next));
                    assert(0 <= j - i && (j - i) + old@.len() <= t.len());
                    if limit == 0 {
                        assert(r0 == replace_all_spec(t, old@, new@));
                        assert(replace_all_spec(t, old@, new@)
                            == t.take(j - i) + new@ + replace_all_spec(t.skip(j - i + old@.len() as int), old@, new@));
                        assert(r1 == replace_all_spec(s@.skip(next), old@, new@));
                    } else {
                        let rem = (limit - done) as nat;
                        assert(rem >= 1);
                        assert(r0 == replacen_spec(t, old@, new@, rem));
                        assert(replacen_spec(t, old@, new@, rem)
                            == t.take(j - i) + new@ + replacen_spec(t.skip(j - i + old@.len() as int), old@, new@, (rem - 1) as nat));
                        if done + 1 < limit {
                            assert(r1 == replacen_spec(s@.skip(next), old@, new@, (rem - 1) as nat));
                        } else {
                            assert(r1 == s@.skip(next));
                            assert(replacen_spec(s@.skip(next), old@, new@, 0nat) == s@.skip(next));
                        }
                    }
                    assert(r0 == t.take(j - i) + new@ + r1);
                    assert(out@ =~= out0 + t.take(j - i) + new@);
                    assert(out@ + r1 =~= out0 + r0);
                }
                i = j + old.len();
                done += 1;
            },
        }
    }
    while i < s.len()
        invariant
            i <= s@.len(),
            out@ + s@.skip(i as int) == target,
        decreases s@.len() - i,
    {
        out.push(s[i]);
        proof {
            assert(s@.skip(i as int) =~= seq![s@[i as int]] + s@.skip(i + 1));
            assert(out@ + s@.skip(i + 1) =~= target);
        }
        i += 1;
    }
    proof {
        assert(s@.skip(i as int) =~= Seq::<u8>::empty());
        assert(out@ + Seq::<u8>::empty() =~= out@);
    }
    out
}

/// Equality of two byte vectors.
pub fn bytes_eq(a: &Vec<u8>, b: &Vec<u8>) -> (r: bool)
    ensures
        r <==> a@ == b@,
{
    if a.len() != b.len() {
        proof {
            if a@ == b@ {
                assert(a@.len() == b@.len());
            }
        }
        return false;
    }
    let r = match_here(a, b, 0);
    proof {
        assert(a@.subrange(0, b@.len() as int) =~= a@);
    }
    r
}

/// Whether `pat` occurs anywhere in `s`.
pub fn contains_bytes(s: &Vec<u8>, pat: &Vec<u8>) -> (r: bool)
    requires
        pat@.len() >= 1,
    ensures
        r <==> contains_sub(s@, pat@),
{
    match find_from(s, pat, 0) {
        Some(_) => true,
        None => {
            proof {
                assert forall|k: int| true implies !match_at(s@, pat@, k) by {
                    if k >= 0 {
                        assert(!match_at(s@, pat@, k));
                    }
                }
            }
            false
        },
    }
}

/// Whether `s` begins with `p`.
pub fn has_prefix(s: &Vec<u8>, p: &Vec<u8>) -> (r: bool)
    ensures
        r <==> match_at(s@, p@, 0),
{
    if p.len() > s.len() {
        return false;
    }
    match_here(s, p, 0)
}

/// The serialization artifact `"<string>"`.
pub open spec fn string_open() -> Seq<u8> {
    seq![60u8, 115u8, 116u8, 114u8, 105u8, 110u8, 103u8, 62u8]
}

/// The serialization artifact `"</string>"`.
pub open spec fn string_close() -> Seq<u8> {
    seq![60u8, 47u8, 115u8, 116u8, 114u8, 105u8, 110u8, 103u8, 62u8]
}

/// A Windows line break: carriage return followed by line feed.
pub open spec fn crlf() -> Seq<u8> {
    seq![13u8, 10u8]
}

/// A lone carriage return.
pub open spec fn cr() -> Seq<u8> {
    seq![13u8]
}

/// A lone line feed.
pub open spec fn lf() -> Seq<u8> {
    seq![10u8]
}

/// A tab character.
pub open spec fn tab_ch() -> Seq<u8> {
    seq![9u8]
}

/// The line-break markup element `"<w:br/>"`.
pub open spec fn br_mark() -> Seq<u8> {
    seq![60u8, 119u8, 58u8, 98u8, 114u8, 47u8, 62u8]
}

/// The run-splitting tab markup sequence `"</w:t><w:tab/><w:t>"`.
pub open spec fn tab_mark() -> Seq<u8> {
    seq![60u8, 47u8, 119u8, 58u8, 116u8, 62u8, 60u8, 119u8, 58u8, 116u8, 97u8, 98u8, 47u8, 62u8, 60u8, 119u8, 58u8, 116u8, 62u8]
}

/// The encoding rule: strip the serialization artifacts, then turn Windows,
/// old-Mac and Unix line breaks into the line-break markup element, then turn
/// each tab into the run-splitting tab markup, in exactly this order.
pub open spec fn encode_spec(s: Seq<u8>) -> Seq<u8> {
    let s1 = replace_all_spec(s, string_open(), Seq::empty());
    let s2 = replace_all_spec(s1, string_close(), Seq::empty());
    let s3 = replace_all_spec(s2, crlf(), br_mark());
    let s4 = replace_all_spec(s3, cr(), br_mark());
    let s5 = replace_all_spec(s4, lf(), br_mark());
    replace_all_spec(s5, tab_ch(), tab_mark())
}

fn lit_string_open() -> (r: Vec<u8>)
    ensures
        r@ == string_open(),
{
    let r: Vec<u8> = vec![60u8, 115u8, 116u8, 114u8, 105u8, 110u8, 103u8, 62u8];
    proof {
        assert(r@ =~= string_open());
    }
    r
}

fn lit_string_close() -> (r: Vec<u8>)
    ensures
        r@ == string_close(),
{
    let r: Vec<u8> = vec![60u8, 47u8, 115u8, 116u8, 114u8, 105u8, 110u8, 103u8, 62u8];
    proof {
        assert(r@ =~= string_close());
    }
    r
}

fn lit_crlf() -> (r: Vec<u8>)
    ensures
        r@ == crlf(),
{
    let r: Vec<u8> = vec![13u8, 10u8];
    proof {
        assert(r@ =~= crlf());
    }
    r
}

fn lit_br_mark() -> (r: Vec<u8>)
    ensures
        r@ == br_mark(),
{
    let r: Vec<u8> = vec![60u8, 119u8, 58u8, 98u8, 114u8, 47u8, 62u8];
    proof {
        assert(r@ =~= br_mark());
    }
    r
}

fn lit_tab_mark() -> (r: Vec<u8>)
    ensures
        r@ == tab_mark(),
{
    let r: Vec<u8> = vec![
        60u8, 47u8, 119u8, 58u8, 116u8, 62u8, 60u8, 119u8, 58u8, 116u8, 97u8, 98u8, 47u8, 62u8,
        60u8, 119u8, 58u8, 116u8, 62u8,
    ];
    proof {
        assert(r@ =~= tab_mark());
    }
    r
}

/// Encode a raw text fragment for embedding in document run text: strip the
/// serialization artifacts and transliterate line breaks and tabs into their
/// markup elements, Windows pairs first so they become a single line break.
pub fn encode(s: &Vec<u8>) -> (r: Vec<u8>)
    ensures
        r@ == encode_spec(s@),
{
    let empty: Vec<u8> = Vec::new();
    let br = lit_br_mark();
    let s1 = replace_bytes(s, &lit_string_open(), &empty, 0);
    let s2 = replace_bytes(&s1, &lit_string_close(), &empty, 0);
    let s3 = replace_bytes(&s2, &lit_crlf(), &br, 0);
    let mut pat: Vec<u8> = vec![13u8];
    let s4 = replace_bytes(&s3, &pat, &br, 0);
    proof {
        assert(pat@ =~= cr());
        assert(s4@ == replace_all_spec(s3@, cr(), br_mark()));
    }
    pat = vec![10u8];
    let s5 = replace_bytes(&s4, &pat, &br, 0);
    proof {
        assert(pat@ =~= lf());
    }
    pat = vec![9u8];
    let r = replace_bytes(&s5, &pat, &lit_tab_mark(), 0);
    proof {
        assert(pat@ =~= tab_ch());
    }
    r
}

} // verus!
