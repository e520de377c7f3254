//! Plain-text primitives the key/value file handling is built on: substring
//! search, first-occurrence replacement, and splitting text into lines the
//! way `\n`- or `\r\n`-terminated files are read.

use vstd::prelude::*;

verus! {

/// The pattern `p` occurs in `t` starting at position `i`.
pub open spec fn occurs_at(t: Seq<char>, p: Seq<char>, i: int) -> bool {
    0 <= i && i + p.len() <= t.len() && t.subrange(i, i + p.len() as int) == p
}

/// The pattern `p` occurs somewhere in `t`.
pub open spec fn has_sub(t: Seq<char>, p: Seq<char>) -> bool {
    exists|i: int| occurs_at(t, p, i)
}

/// Position of the first occurrence of `p` in `t`, if any.
pub open spec fn first_match(t: Seq<char>, p: Seq<char>) -> Option<int>
    decreases t.len(),
{
    if occurs_at(t, p, 0) {
        Some(0)
    } else if t.len() == 0 {
        None
    } else {
        match first_match(t.drop_first(), p) {
            Some(i) => Some(i + 1),
            None => None,
        }
    }
}

/// `t` with the first occurrence of `p` replaced by `r`; `t` itself when `p`
/// does not occur.
pub open spec fn replaced(t: Seq<char>, p: Seq<char>, r: Seq<char>) -> Seq<char> {
    match first_match(t, p) {
        Some(i) => t.subrange(0, i) + r + t.subrange(i + p.len() as int, t.len() as int),
        None => t,
    }
}

/// Occurrences one position into `t` are occurrences in `t` without its
/// first character, shifted by one.
pub proof fn lemma_occurs_shift_one(t: Seq<char>, p: Seq<char>, j: int)
    requires
        t.len() >= 1,
        0 <= j,
    ensures
        occurs_at(t, p, j + 1) == occurs_at(t.drop_first(), p, j),
{
    if j + 1 + p.len() <= t.len() {
        assert(t.subrange(j + 1, j + 1 + p.len() as int) =~= t.drop_first().subrange(
            j,
            j + p.len() as int,
        ));
    }
}

/// `first_match` returns the least position at which `p` occurs, and `None`
/// exactly when `p` does not occur at all.
pub proof fn lemma_first_match(t: Seq<char>, p: Seq<char>)
    ensures
        match first_match(t, p) {
            Some(i) => occurs_at(t, p, i) && (forall|j: int| 0 <= j < i ==> !occurs_at(t, p, j)),
            None => forall|j: int| !occurs_at(t, p, j),
        },
    decreases t.len(),
{
    if occurs_at(t, p, 0) {
    } else if t.len() == 0 {
        assert forall|j: int| !occurs_at(t, p, j) by {
            if occurs_at(t, p, j) {
                assert(j == 0);
            }
        }
    } else {
        lemma_first_match(t.drop_first(), p);
        match first_match(t.drop_first(), p) {
            Some(i) => {
                lemma_occurs_shift_one(t, p, i);
                assert forall|j: int| 0 <= j < i + 1 implies !occurs_at(t, p, j) by {
                    if j > 0 {
                        lemma_occurs_shift_one(t, p, j - 1);
                    }
                }
            },
            None => {
                assert forall|j: int| !occurs_at(t, p, j) by {
                    if j > 0 {
                        lemma_occurs_shift_one(t, p, j - 1);
                    }
                }
            },
        }
    }
}

/// `t` with every occurrence of `p` replaced by `r`, scanning left to
/// right without rescanning replacements; an empty pattern leaves the text
/// unchanged.
pub open spec fn replaced_all(t: Seq<char>, p: Seq<char>, r: Seq<char>) -> Seq<char>
    decreases t.len(),
    via replaced_all_decreases
{
    if p.len() == 0 {
        t
    } else {
        match first_match(t, p) {
            Some(i) => t.subrange(0, i) + r + replaced_all(
                t.subrange(i + p.len() as int, t.len() as int),
                p,
                r,
            ),
            None => t,
        }
    }
}

#[via_fn]
proof fn replaced_all_decreases(t: Seq<char>, p: Seq<char>, r: Seq<char>) {
    lemma_first_match(t, p);
}

/// Replacing an occurrence of `p` by `p` itself changes nothing.
pub proof fn lemma_replace_self(t: Seq<char>, p: Seq<char>)
    ensures
        replaced(t, p, p) == t,
{
    lemma_first_match(t, p);
    match first_match(t, p) {
        Some(i) => {
            assert(t.subrange(0, i) + p + t.subrange(i + p.len() as int, t.len() as int) =~= t);
        },
        None => {},
    }
}

/// A line as read from a file: a trailing carriage return is dropped, so
/// `\r\n`-terminated files read the same as `\n`-terminated ones.
pub open spec fn strip_cr(l: Seq<char>) -> Seq<char> {
    if l.len() > 0 && l.last() == '\r' {
        l.drop_last()
    } else {
        l
    }
}

/// The lines of `cur + t`, where `cur` holds the part of the current line
/// already consumed. Lines are separated by `\n`; a final line terminator
/// produces no empty last line.
pub open spec fn lines_from(t: Seq<char>, cur: Seq<char>) -> Seq<Seq<char>>
    decreases t.len(),
{
    if t.len() == 0 {
        if cur.len() == 0 {
            Seq::empty()
        } else {
            seq![strip_cr(cur)]
        }
    } else if t[0] == '\n' {
        seq![strip_cr(cur)] + lines_from(t.drop_first(), Seq::empty())
    } else {
        lines_from(t.drop_first(), cur.push(t[0]))
    }
}

/// The lines of a text, as a file reader yields them.
pub open spec fn lines_of(t: Seq<char>) -> Seq<Seq<char>> {
    lines_from(t, Seq::empty())
}

/// Position of the first occurrence of the character `c` in `t`, if any.
pub open spec fn first_char_match(t: Seq<char>, c: char) -> Option<int>
    decreases t.len(),
{
    if t.len() == 0 {
        None
    } else if t[0] == c {
        Some(0)
    } else {
        match first_char_match(t.drop_first(), c) {
            Some(i) => Some(i + 1),
            None => None,
        }
    }
}

/// `first_char_match` returns the least position holding `c`, and `None`
/// exactly when `c` does not occur.
pub proof fn lemma_first_char_match(t: Seq<char>, c: char)
    ensures
        match first_char_match(t, c) {
            Some(i) => 0 <= i < t.len() && t[i] == c && (forall|j: int| 0 <= j < i ==> t[j] != c),
            None => forall|j: int| 0 <= j < t.len() ==> t[j] != c,
        },
    decreases t.len(),
{
    if t.len() == 0 {
    } else if t[0] == c {
    } else {
        lemma_first_char_match(t.drop_first(), c);
        assert(forall|j: int| 0 <= j < t.drop_first().len() ==> t.drop_first()[j] == t[j + 1]);
        match first_char_match(t.drop_first(), c) {
            Some(i) => {
                assert forall|j: int| 0 <= j < i + 1 implies t[j] != c by {
                    if j > 0 {
                        assert(t.drop_first()[j - 1] == t[j]);
                    }
                }
            },
            None => {
                assert forall|j: int| 0 <= j < t.len() implies t[j] != c by {
                    if j > 0 {
                        assert(t.drop_first()[j - 1] == t[j]);
                    }
                }
            },
        }
    }
}

/// The text holds no line feed.
pub open spec fn no_nl(s: Seq<char>) -> bool {
    forall|i: int| 0 <= i < s.len() ==> s[i] != '\n'
}

/// The text holds no carriage return.
pub open spec fn no_cr(s: Seq<char>) -> bool {
    forall|i: int| 0 <= i < s.len() ==> s[i] != '\r'
}

/// A position at which `p` occurs and before which it does not is the
/// first match.
pub proof fn lemma_first_match_is(t: Seq<char>, p: Seq<char>, i: int)
    requires
        occurs_at(t, p, i),
        forall|j: int| 0 <= j < i ==> !occurs_at(t, p, j),
    ensures
        first_match(t, p) == Some(i),
{
    lemma_first_match(t, p);
    match first_match(t, p) {
        Some(w) => {
            if w < i {
                assert(occurs_at(t, p, w));
            }
            if i < w {
                assert(!occurs_at(t, p, i));
            }
        },
        None => {
            assert(!occurs_at(t, p, i));
        },
    }
}

/// A position holding `c` before which `c` does not occur is the first
/// occurrence of `c`.
pub proof fn lemma_first_char_match_is(t: Seq<char>, c: char, i: int)
    requires
        0 <= i < t.len(),
        t[i] == c,
        forall|j: int| 0 <= j < i ==> t[j] != c,
    ensures
        first_char_match(t, c) == Some(i),
{
    lemma_first_char_match(t, c);
    match first_char_match(t, c) {
        Some(w) => {
            if w < i {
            }
            if i < w {
            }
        },
        None => {},
    }
}

/// An occurrence within a prefix is an occurrence in the whole text, and an
/// occurrence that ends within the prefix lies in the prefix.
pub proof fn lemma_occurs_in_prefix(pre: Seq<char>, rest: Seq<char>, p: Seq<char>, i: int)
    requires
        0 <= i,
        i + p.len() <= pre.len(),
    ensures
        occurs_at(pre, p, i) == occurs_at(pre + rest, p, i),
{
    assert(pre.subrange(i, i + p.len() as int) =~= (pre + rest).subrange(i, i + p.len() as int));
}

/// An occurrence at or past the prefix boundary is an occurrence in the
/// suffix, shifted.
pub proof fn lemma_occurs_in_suffix(pre: Seq<char>, rest: Seq<char>, p: Seq<char>, i: int)
    requires
        0 <= i,
    ensures
        occurs_at(rest, p, i) == occurs_at(pre + rest, p, pre.len() + i),
{
    if i + p.len() <= rest.len() {
        assert(rest.subrange(i, i + p.len() as int) =~= (pre + rest).subrange(
            pre.len() + i,
            pre.len() + i + p.len() as int,
        ));
    }
}

/// A substring of a substring of `a` is a substring of `a`.
pub proof fn lemma_has_sub_trans(a: Seq<char>, b: Seq<char>, c: Seq<char>)
    requires
        has_sub(a, b),
        has_sub(b, c),
    ensures
        has_sub(a, c),
{
    let i = choose|i: int| occurs_at(a, b, i);
    let j = choose|j: int| occurs_at(b, c, j);
    assert(a.subrange(i + j, i + j + c.len() as int) =~= b.subrange(j, j + c.len() as int));
    assert(occurs_at(a, c, i + j));
}

/// When no occurrence of `p` starts inside the prefix, replacing in the
/// whole text is replacing in the suffix.
pub proof fn lemma_replace_in_suffix(pre: Seq<char>, rest: Seq<char>, p: Seq<char>, r: Seq<char>)
    requires
        forall|j: int| 0 <= j < pre.len() ==> !occurs_at(pre + rest, p, j),
    ensures
        replaced(pre + rest, p, r) == pre + replaced(rest, p, r),
{
    let t = pre + rest;
    lemma_first_match(rest, p);
    match first_match(rest, p) {
        Some(i) => {
            lemma_occurs_in_suffix(pre, rest, p, i);
            assert(occurs_at(t, p, pre.len() + i));
            assert forall|j: int| 0 <= j < pre.len() + i implies !occurs_at(t, p, j) by {
                if j >= pre.len() {
                    lemma_occurs_in_suffix(pre, rest, p, j - pre.len());
                }
            }
            lemma_first_match_is(t, p, pre.len() + i);
            assert(t.subrange(0, pre.len() + i) + r + t.subrange(
                pre.len() + i + p.len() as int,
                t.len() as int,
            ) =~= pre + (rest.subrange(0, i) + r + rest.subrange(
                i + p.len() as int,
                rest.len() as int,
            )));
        },
        None => {
            lemma_first_match(t, p);
            match first_match(t, p) {
                Some(w) => {
                    assert(occurs_at(t, p, w));
                    if w >= pre.len() {
                        lemma_occurs_in_suffix(pre, rest, p, w - pre.len());
                    }
                    assert(false);
                },
                None => {},
            }
        },
    }
}

/// Every line of a text without carriage returns holds neither line feeds
/// nor carriage returns (given the part of the current line already
/// consumed holds none either).
pub proof fn lemma_lines_from_clean(t: Seq<char>, cur: Seq<char>)
    requires
        no_nl(cur),
        no_cr(cur),
        no_cr(t),
    ensures
        forall|m: int|
            0 <= m < lines_from(t, cur).len() ==> no_nl(#[trigger] lines_from(t, cur)[m]) && no_cr(
                lines_from(t, cur)[m],
            ),
    decreases t.len(),
{
    if t.len() == 0 {
        assert(strip_cr(cur) == cur);
    } else if t[0] == '\n' {
        assert(strip_cr(cur) == cur);
        lemma_lines_from_clean(t.drop_first(), Seq::empty());
        assert forall|m: int| 0 <= m < lines_from(t, cur).len() implies no_nl(
            #[trigger] lines_from(t, cur)[m],
        ) && no_cr(lines_from(t, cur)[m]) by {
            if m > 0 {
                assert(lines_from(t, cur)[m] == lines_from(t.drop_first(), Seq::empty())[m - 1]);
            }
        }
    } else {
        assert(no_nl(cur.push(t[0]))) by {
            assert(forall|i: int|
                0 <= i < cur.len() ==> #[trigger] cur.push(t[0])[i] == cur[i]);
        }
        assert(no_cr(cur.push(t[0]))) by {
            assert(forall|i: int|
                0 <= i < cur.len() ==> #[trigger] cur.push(t[0])[i] == cur[i]);
            assert(t[0] != '\r');
        }
        lemma_lines_from_clean(t.drop_first(), cur.push(t[0]));
        assert(lines_from(t, cur) == lines_from(t.drop_first(), cur.push(t[0])));
    }
}

/// Splitting at the first line feed: the first line is everything before
/// it, and the remaining lines are the lines of everything after it.
pub proof fn lemma_lines_from_split(t: Seq<char>, cur: Seq<char>, i: int)
    requires
        0 <= i < t.len(),
        t[i] == '\n',
        forall|m: int| 0 <= m < i ==> t[m] != '\n',
    ensures
        lines_from(t, cur) == seq![strip_cr(cur + t.subrange(0, i))] + lines_from(
            t.subrange(i + 1, t.len() as int),
            Seq::empty(),
        ),
    decreases i,
{
    if i == 0 {
        assert(cur + t.subrange(0, 0) =~= cur);
        assert(t.drop_first() =~= t.subrange(1, t.len() as int));
    } else {
        lemma_lines_from_split(t.drop_first(), cur.push(t[0]), i - 1);
        assert(cur.push(t[0]) + t.drop_first().subrange(0, i - 1) =~= cur + t.subrange(0, i));
        assert(t.drop_first().subrange(i, t.drop_first().len() as int) =~= t.subrange(
            i + 1,
            t.len() as int,
        ));
    }
}

/// A text without line feeds is one line (or none, when it and the
/// consumed part are both empty).
pub proof fn lemma_lines_from_whole(t: Seq<char>, cur: Seq<char>)
    requires
        no_nl(t),
    ensures
        lines_from(t, cur) == (if (cur + t).len() == 0 {
            Seq::<Seq<char>>::empty()
        } else {
            seq![strip_cr(cur + t)]
        }),
    decreases t.len(),
{
    if t.len() == 0 {
        assert(cur + t =~= cur);
    } else {
        lemma_lines_from_whole(t.drop_first(), cur.push(t[0]));
        assert(cur.push(t[0]) + t.drop_first() =~= cur + t);
    }
}

/// A text of two terminated lines, each free of line breaks, splits into
/// exactly those two lines.
pub proof fn lemma_lines_of_pair(l1: Seq<char>, l2: Seq<char>)
    requires
        no_nl(l1),
        no_cr(l1),
        no_nl(l2),
        no_cr(l2),
    ensures
        lines_of(l1 + seq!['\n'] + l2 + seq!['\n']) == seq![l1, l2],
{
    let t = l1 + seq!['\n'] + l2 + seq!['\n'];
    assert(t[l1.len() as int] == '\n');
    assert(forall|m: int| 0 <= m < l1.len() ==> t[m] == l1[m]);
    lemma_lines_from_split(t, Seq::empty(), l1.len() as int);
    assert(Seq::empty() + t.subrange(0, l1.len() as int) =~= l1);
    assert(strip_cr(l1) == l1);
    let rest = t.subrange(l1.len() as int + 1, t.len() as int);
    assert(rest =~= l2 + seq!['\n']);
    assert(rest[l2.len() as int] == '\n');
    assert(forall|m: int| 0 <= m < l2.len() ==> rest[m] == l2[m]);
    lemma_lines_from_split(rest, Seq::empty(), l2.len() as int);
    assert(Seq::empty() + rest.subrange(0, l2.len() as int) =~= l2);
    assert(strip_cr(l2) == l2);
    assert(rest.subrange(l2.len() as int + 1, rest.len() as int) =~= Seq::<char>::empty());
    assert(lines_of(t) =~= seq![l1, l2]);
}

/// Replacing the first occurrence of a whole line of `t` — one that occurs
/// in no earlier line — replaces exactly that line: the other lines stay,
/// and the replacement (itself free of line breaks) takes its place.
pub proof fn lemma_replace_line(t: Seq<char>, li: int, newl: Seq<char>)
    requires
        no_cr(t),
        0 <= li < lines_of(t).len(),
        forall|m: int| 0 <= m < li ==> !has_sub(#[trigger] lines_of(t)[m], lines_of(t)[li]),
        no_nl(newl),
        no_cr(newl),
        newl.len() > 0,
    ensures
        lines_of(replaced(t, lines_of(t)[li], newl)) == lines_of(t).update(li, newl),
    decreases t.len(),
{
    let ls = lines_of(t);
    let lx = ls[li];
    lemma_first_char_match(t, '\n');
    lemma_lines_from_clean(t, Seq::empty());
    match first_char_match(t, '\n') {
        None => {
            // One line only: the whole text is replaced.
            lemma_lines_from_whole(t, Seq::empty());
            assert(Seq::empty() + t =~= t);
            assert(t.len() > 0);
            assert(strip_cr(t) == t);
            assert(ls =~= seq![t]);
            assert(li == 0);
            assert(lx == t);
            assert(occurs_at(t, lx, 0)) by {
                assert(t.subrange(0, t.len() as int) =~= t);
            }
            lemma_first_match_is(t, lx, 0);
            assert(replaced(t, lx, newl) =~= newl);
            lemma_lines_from_whole(newl, Seq::empty());
            assert(Seq::empty() + newl =~= newl);
            assert(strip_cr(newl) == newl);
            assert(lines_of(newl) =~= ls.update(0, newl));
        },
        Some(i) => {
            let l0 = t.subrange(0, i);
            let rest = t.subrange(i + 1, t.len() as int);
            lemma_lines_from_split(t, Seq::empty(), i);
            assert(Seq::empty() + l0 =~= l0);
            assert(no_cr(l0)) by {
                assert(forall|m: int| 0 <= m < l0.len() ==> l0[m] == t[m]);
            }
            assert(strip_cr(l0) == l0);
            assert(ls =~= seq![l0] + lines_of(rest));
            assert(no_cr(rest)) by {
                assert(forall|m: int| 0 <= m < rest.len() ==> rest[m] == t[i + 1 + m]);
            }
            if li == 0 {
                assert(lx == l0);
                assert(lx.len() == i);
                assert(occurs_at(t, lx, 0)) by {
                    assert(t.subrange(0, lx.len() as int) =~= lx);
                }
                lemma_first_match_is(t, lx, 0);
                let u = replaced(t, lx, newl);
                assert(u =~= newl + t.subrange(i, t.len() as int));
                assert(u[newl.len() as int] == t[i]);
                assert(forall|m: int| 0 <= m < newl.len() ==> u[m] == newl[m]);
                lemma_lines_from_split(u, Seq::empty(), newl.len() as int);
                assert(Seq::empty() + u.subrange(0, newl.len() as int) =~= newl);
                assert(strip_cr(newl) == newl);
                assert(u.subrange(newl.len() as int + 1, u.len() as int) =~= rest);
                assert(lines_of(u) =~= seq![newl] + lines_of(rest));
                assert(lines_of(u) =~= ls.update(0, newl));
            } else {
                assert(lx == lines_of(rest)[li - 1]);
                assert(no_nl(lx));
                assert forall|j: int| 0 <= j < i + 1 implies !occurs_at(t, lx, j) by {
                    if occurs_at(t, lx, j) {
                        if j + lx.len() <= i {
                            assert(l0.subrange(j, j + lx.len() as int) =~= t.subrange(
                                j,
                                j + lx.len() as int,
                            ));
                            assert(occurs_at(l0, lx, j));
                            assert(has_sub(ls[0], lx));
                        } else {
                            assert(lx[i - j] == t.subrange(j, j + lx.len() as int)[i - j]);
                            assert(lx[i - j] == t[i]);
                        }
                    }
                }
                let pre = t.subrange(0, i + 1);
                assert(t =~= pre + rest);
                lemma_replace_in_suffix(pre, rest, lx, newl);
                let w = replaced(rest, lx, newl);
                assert(replaced(t, lx, newl) == pre + w);
                assert forall|m: int| 0 <= m < li - 1 implies !has_sub(
                    #[trigger] lines_of(rest)[m],
                    lines_of(rest)[li - 1],
                ) by {
                    assert(lines_of(rest)[m] == ls[m + 1]);
                }
                lemma_replace_line(rest, li - 1, newl);
                let u = pre + w;
                assert(u[i] == t[i]);
                assert(forall|m: int| 0 <= m < i ==> u[m] == t[m]);
                lemma_lines_from_split(u, Seq::empty(), i);
                assert(Seq::empty() + u.subrange(0, i) =~= l0);
                assert(u.subrange(i + 1, u.len() as int) =~= w);
                assert(lines_of(u) =~= seq![l0] + lines_of(rest).update(li - 1, newl));
                assert(lines_of(u) =~= ls.update(li, newl));
            }
        },
    }
}

/// Whether two string slices hold the same characters.
pub fn str_eq(a: &str, b: &str) -> (r: bool)
    ensures
        r == (a@ == b@),
{
    let sa = a.to_owned();
    let sb = b.to_owned();
    sa == sb
}

/// Whether `p` occurs in `t` at position `i`.
fn matches_at(t: &str, p: &str, i: usize, tlen: usize, plen: usize) -> (r: bool)
    requires
        tlen == t@.len(),
        plen == p@.len(),
        i + plen <= tlen,
    ensures
        r == occurs_at(t@, p@, i as int),
{
    let sub = t.substring_char(i, i + plen);
    str_eq(sub, p)
}

/// Position of the first occurrence of `p` in `t`, if any.
pub fn find_first(t: &str, p: &str) -> (r: Option<usize>)
    ensures
        match r {
            Some(i) => first_match(t@, p@) == Some(i as int),
            None => first_match(t@, p@) is None,
        },
    decreases t@.len(),
{
    let tlen = t.unicode_len();
    let plen = p.unicode_len();
    if plen <= tlen && matches_at(t, p, 0, tlen, plen) {
        Some(0)
    } else if tlen == 0 {
        None
    } else {
        let rest = t.substring_char(1, tlen);
        proof {
            assert(rest@ =~= t@.drop_first());
        }
        match find_first(rest, p) {
            Some(i) => {
                proof {
                    lemma_first_match(rest@, p@);
                }
                Some(i + 1)
            },
            None => None,
        }
    }
}

/// Whether `p` occurs somewhere in `t`.
pub fn contains_sub(t: &str, p: &str) -> (r: bool)
    ensures
        r == has_sub(t@, p@),
{
    proof {
        lemma_first_match(t@, p@);
    }
    match find_first(t, p) {
        Some(_) => true,
        None => false,
    }
}

/// `t` with its first occurrence of `p` replaced by `r`; a copy of `t` when
/// `p` does not occur.
pub fn replace_first(t: &str, p: &str, r: &str) -> (res: String)
    ensures
        res@ == replaced(t@, p@, r@),
{
    match find_first(t, p) {
        Some(i) => {
            proof {
                lemma_first_match(t@, p@);
            }
            let tlen = t.unicode_len();
            let plen = p.unicode_len();
            let mut s = t.substring_char(0, i).to_owned();
            s.append(r);
            s.append(t.substring_char(i + plen, tlen));
            s
        },
        None => t.to_owned(),
    }
}

/// `t` with every occurrence of `p` replaced by `r`, scanning left to
/// right; a copy of `t` when `p` is empty or does not occur.
pub fn replace_all(t: &str, p: &str, r: &str) -> (res: String)
    ensures
        res@ == replaced_all(t@, p@, r@),
    decreases t@.len(),
{
    let plen = p.unicode_len();
    if plen == 0 {
        return t.to_owned();
    }
    match find_first(t, p) {
        Some(i) => {
            proof {
                lemma_first_match(t@, p@);
            }
            let tlen = t.unicode_len();
            let mut s = t.substring_char(0, i).to_owned();
            s.append(r);
            let rest = t.substring_char(i + plen, tlen);
            let tail = replace_all(rest, p, r);
            s.append(tail.as_str());
            s
        },
        None => t.to_owned(),
    }
}

/// Position of the first occurrence of the character `c` in `t`, if any.
pub fn find_char(t: &str, c: char) -> (r: Option<usize>)
    ensures
        match r {
            Some(i) => first_char_match(t@, c) == Some(i as int),
            None => first_char_match(t@, c) is None,
        },
    decreases t@.len(),
{
    let tlen = t.unicode_len();
    if tlen == 0 {
        None
    } else if t.get_char(0) == c {
        Some(0)
    } else {
        let rest = t.substring_char(1, tlen);
        proof {
            assert(rest@ =~= t@.drop_first());
        }
        match find_char(rest, c) {
            Some(i) => {
                proof {
                    lemma_first_char_match(rest@, c);
                }
                Some(i + 1)
            },
            None => None,
        }
    }
}

/// The string without a trailing carriage return, if it had one.
fn strip_cr_string(s: String) -> (r: String)
    ensures
        r@ == strip_cr(s@),
{
    let n = s.as_str().unicode_len();
    if n > 0 && s.as_str().get_char(n - 1) == '\r' {
        let r = s.as_str().substring_char(0, n - 1).to_owned();
        proof {
            assert(r@ =~= strip_cr(s@));
        }
        r
    } else {
        s
    }
}

/// Splits a text into its lines, dropping each line's terminator
/// (`\n` or `\r\n`).
pub fn split_lines(t: &str) -> (r: Vec<String>)
    ensures
        r.deep_view() == lines_of(t@),
{
    let tlen = t.unicode_len();
    let mut res: Vec<String> = Vec::new();
    let mut cur: String = String::new();
    let mut i: usize = 0;
    proof {
        assert(t@.subrange(0, tlen as int) =~= t@);
        assert(res.deep_view() + lines_from(t@, cur@) =~= lines_from(t@, Seq::empty()));
    }
    while i < tlen
        invariant
            i <= tlen,
            tlen == t@.len(),
            lines_of(t@) == res.deep_view() + lines_from(t@.subrange(i as int, tlen as int), cur@),
        decreases tlen - i,
    {
        let ghost pre = t@.subrange(i as int, tlen as int);
        let c = t.get_char(i);
        if c == '\n' {
            let ghost res0 = res.deep_view();
            let ghost cur0 = cur@;
            let done = strip_cr_string(cur);
            res.push(done);
            cur = String::new();
            proof {
                assert(res.deep_view() =~= res0.push(strip_cr(cur0)));
                assert(pre.drop_first() =~= t@.subrange(i + 1, tlen as int));
                assert(res.deep_view() + lines_from(t@.subrange(i + 1, tlen as int), cur@) =~= res0
                    + lines_from(pre, cur0));
            }
        } else {
            let ghost cur0 = cur@;
            cur.append(t.substring_char(i, i + 1));
            proof {
                assert(cur@ =~= cur0.push(pre[0]));
                assert(pre.drop_first() =~= t@.subrange(i + 1, tlen as int));
            }
        }
        i = i + 1;
    }
    proof {
        assert(t@.subrange(tlen as int, tlen as int) =~= Seq::<char>::empty());
    }
    if cur.as_str().unicode_len() > 0 {
        let ghost res0 = res.deep_view();
        let ghost cur0 = cur@;
        let done = strip_cr_string(cur);
        res.push(done);
        proof {
            assert(res.deep_view() =~= res0.push(strip_cr(cur0)));
            assert(res0 + lines_from(Seq::empty(), cur0) =~= res0.push(strip_cr(cur0)));
        }
    } else {
        proof {
            assert(res.deep_view() + lines_from(Seq::empty(), cur@) =~= res.deep_view());
        }
    }
    res
}

} // verus!
