//! The key-scoped value primitive over line-oriented key/value text
//! (`key: value[,]` marker lines, and the `"key": "value",` lines of a
//! manifest). A line matches a key when the key occurs anywhere in it; a
//! matching line's value is everything after the line's first `:`, with
//! surrounding whitespace, one trailing comma and one pair of surrounding
//! quotes stripped. On a read the last matching line wins; on an update each
//! matching line has the first occurrence of its current value replaced by
//! the new value, and the whole text has the first occurrence of the old
//! line replaced by the rewritten line.

use vstd::prelude::*;

use crate::text::first_char_match;
use crate::text::first_match;
use crate::text::has_sub;
use crate::text::lemma_lines_from_clean;
use crate::text::lemma_replace_line;
use crate::text::lines_of;
use crate::text::no_cr;
use crate::text::no_nl;
use crate::text::occurs_at;
use crate::text::replaced;

use crate::text::contains_sub;
use crate::text::find_char;
use crate::text::replace_first;
use crate::text::split_lines;

verus! {

/// Whitespace stripped around a value: spaces, tabs and (since lines have
/// already lost their `\n`) stray carriage returns.
pub open spec fn is_ws(c: char) -> bool {
    c == ' ' || c == '\t' || c == '\r'
}

/// The text without leading whitespace.
pub open spec fn trim_left(s: Seq<char>) -> Seq<char>
    decreases s.len(),
{
    if s.len() > 0 && is_ws(s[0]) {
        trim_left(s.drop_first())
    } else {
        s
    }
}

/// The text without trailing whitespace.
pub open spec fn trim_right(s: Seq<char>) -> Seq<char>
    decreases s.len(),
{
    if s.len() > 0 && is_ws(s.last()) {
        trim_right(s.drop_last())
    } else {
        s
    }
}

/// The text without leading or trailing whitespace.
pub open spec fn trimmed(s: Seq<char>) -> Seq<char> {
    trim_right(trim_left(s))
}

/// The text without one trailing comma, if it ends in one.
pub open spec fn strip_trailing_comma(s: Seq<char>) -> Seq<char> {
    if s.len() > 0 && s.last() == ',' {
        s.drop_last()
    } else {
        s
    }
}

/// The text without one leading and one trailing double quote.
pub open spec fn strip_quotes(s: Seq<char>) -> Seq<char> {
    let a = if s.len() > 0 && s.last() == '"' {
        s.drop_last()
    } else {
        s
    };
    if a.len() > 0 && a[0] == '"' {
        a.drop_first()
    } else {
        a
    }
}

/// The extraction rule applied to the raw text after a line's first colon:
/// trim, drop one trailing comma, trim, drop one pair of surrounding
/// quotes, trim.
pub open spec fn cleaned(s: Seq<char>) -> Seq<char> {
    trimmed(strip_quotes(trimmed(strip_trailing_comma(trimmed(s)))))
}

/// The value carried by one line: what follows its first `:`, cleaned.
/// A line without a colon carries the empty value.
pub open spec fn line_value(l: Seq<char>) -> Seq<char> {
    match first_char_match(l, ':') {
        Some(j) => cleaned(l.subrange(j + 1, l.len() as int)),
        None => Seq::empty(),
    }
}

/// The value of the last line of `ls` in which `k` occurs; empty when no
/// line matches.
pub open spec fn last_value(ls: Seq<Seq<char>>, k: Seq<char>) -> Seq<char>
    decreases ls.len(),
{
    if ls.len() == 0 {
        Seq::empty()
    } else if has_sub(ls.last(), k) {
        line_value(ls.last())
    } else {
        last_value(ls.drop_last(), k)
    }
}

/// What a read of key `k` from the text `t` returns.
pub open spec fn value_of(t: Seq<char>, k: Seq<char>) -> Seq<char> {
    last_value(lines_of(t), k)
}

/// A line rewritten to carry the value `v`: the first occurrence of its
/// current value is replaced by `v`.
pub open spec fn rewrite_line(l: Seq<char>, v: Seq<char>) -> Seq<char> {
    replaced(l, line_value(l), v)
}

/// The update folded over the lines `ls` of the original text: for each
/// matching line, the first occurrence of that line in the accumulated text
/// is replaced by the rewritten line.
pub open spec fn update_lines(t: Seq<char>, ls: Seq<Seq<char>>, k: Seq<char>, v: Seq<char>) -> Seq<
    char,
>
    decreases ls.len(),
{
    if ls.len() == 0 {
        t
    } else {
        let t1 = if has_sub(ls.first(), k) {
            replaced(t, ls.first(), rewrite_line(ls.first(), v))
        } else {
            t
        };
        update_lines(t1, ls.drop_first(), k, v)
    }
}

/// What an update of key `k` to value `v` leaves of the text `t`.
pub open spec fn updated(t: Seq<char>, k: Seq<char>, v: Seq<char>) -> Seq<char> {
    update_lines(t, lines_of(t), k, v)
}

/// Whether some line of `t` matches the key `k`.
pub open spec fn has_key(t: Seq<char>, k: Seq<char>) -> bool {
    exists|i: int| 0 <= i < lines_of(t).len() && has_sub(lines_of(t)[i], k)
}

/// A text in which no line matches the key is left untouched by an update.
pub proof fn lemma_update_without_match(t: Seq<char>, k: Seq<char>, v: Seq<char>)
    requires
        !has_key(t, k),
    ensures
        updated(t, k, v) == t,
{
    lemma_update_lines_no_match(t, lines_of(t), k, v);
}

proof fn lemma_update_lines_no_match(t: Seq<char>, ls: Seq<Seq<char>>, k: Seq<char>, v: Seq<char>)
    requires
        forall|i: int| 0 <= i < ls.len() ==> !has_sub(#[trigger] ls[i], k),
    ensures
        update_lines(t, ls, k, v) == t,
    decreases ls.len(),
{
    if ls.len() > 0 {
        assert(!has_sub(ls.first(), k));
        lemma_update_lines_no_match(t, ls.drop_first(), k, v);
    }
}

/// Exactly one line of `t` — the one at index `li` — matches the key `k`.
pub open spec fn unique_match_at(t: Seq<char>, k: Seq<char>, li: int) -> bool {
    &&& 0 <= li < lines_of(t).len()
    &&& has_sub(lines_of(t)[li], k)
    &&& forall|m: int|
        0 <= m < lines_of(t).len() && m != li ==> !has_sub(#[trigger] lines_of(t)[m], k)
}

/// The matching line has the shape the rewrite relies on: it has a colon,
/// carries a non-empty value whose first occurrence lies after the colon,
/// the key occurs before that occurrence, and putting `v` into the value's
/// slot yields a line that reads back as exactly `v` (the surrounding
/// syntax the extraction rule strips passes `v` through).
pub open spec fn line_rewrites_cleanly(l: Seq<char>, k: Seq<char>, v: Seq<char>) -> bool {
    match (first_char_match(l, ':'), first_match(l, line_value(l))) {
        (Some(j), Some(a)) => {
            &&& line_value(l).len() > 0
            &&& a > j
            &&& has_sub(l.subrange(0, a), k)
            &&& cleaned(
                l.subrange(j + 1, a) + v + l.subrange(
                    a + line_value(l).len() as int,
                    l.len() as int,
                ),
            ) == v
        },
        _ => false,
    }
}

proof fn lemma_update_lines_single(
    t: Seq<char>,
    ls: Seq<Seq<char>>,
    k: Seq<char>,
    v: Seq<char>,
    li: int,
)
    requires
        0 <= li < ls.len(),
        has_sub(ls[li], k),
        forall|m: int| 0 <= m < ls.len() && m != li ==> !has_sub(#[trigger] ls[m], k),
    ensures
        update_lines(t, ls, k, v) == replaced(t, ls[li], rewrite_line(ls[li], v)),
    decreases ls.len(),
{
    if li == 0 {
        let t1 = replaced(t, ls.first(), rewrite_line(ls.first(), v));
        assert forall|m: int| 0 <= m < ls.drop_first().len() implies !has_sub(
            #[trigger] ls.drop_first()[m],
            k,
        ) by {
            assert(ls.drop_first()[m] == ls[m + 1]);
        }
        lemma_update_lines_no_match(t1, ls.drop_first(), k, v);
    } else {
        assert(!has_sub(ls.first(), k));
        assert forall|m: int|
            0 <= m < ls.drop_first().len() && m != li - 1 implies !has_sub(
            #[trigger] ls.drop_first()[m],
            k,
        ) by {
            assert(ls.drop_first()[m] == ls[m + 1]);
        }
        assert(ls.drop_first()[li - 1] == ls[li]);
        lemma_update_lines_single(t, ls.drop_first(), k, v, li - 1);
    }
}

proof fn lemma_last_value_single(ls: Seq<Seq<char>>, k: Seq<char>, li: int)
    requires
        0 <= li < ls.len(),
        has_sub(ls[li], k),
        forall|m: int| 0 <= m < ls.len() && m != li ==> !has_sub(#[trigger] ls[m], k),
    ensures
        last_value(ls, k) == line_value(ls[li]),
    decreases ls.len(),
{
    if li == ls.len() - 1 {
        assert(has_sub(ls.last(), k));
    } else {
        assert(!has_sub(ls.last(), k));
        assert forall|m: int|
            0 <= m < ls.drop_last().len() && m != li implies !has_sub(
            #[trigger] ls.drop_last()[m],
            k,
        ) by {
            assert(ls.drop_last()[m] == ls[m]);
        }
        assert(ls.drop_last()[li] == ls[li]);
        lemma_last_value_single(ls.drop_last(), k, li);
    }
}

/// What one update does to a text with exactly one matching line of clean
/// shape: precisely that line is rewritten, it still uniquely matches the
/// key, and it now reads back as the new value.
proof fn lemma_single_update(t: Seq<char>, k: Seq<char>, v: Seq<char>, li: int)
    requires
        no_cr(t),
        no_nl(v),
        no_cr(v),
        unique_match_at(t, k, li),
        line_rewrites_cleanly(lines_of(t)[li], k, v),
    ensures
        updated(t, k, v) == replaced(t, lines_of(t)[li], rewrite_line(lines_of(t)[li], v)),
        lines_of(updated(t, k, v)) == lines_of(t).update(li, rewrite_line(lines_of(t)[li], v)),
        unique_match_at(updated(t, k, v), k, li),
        line_value(lines_of(updated(t, k, v))[li]) == v,
{
    let lx = lines_of(t)[li];
    let oldv = line_value(lx);
    let newl = rewrite_line(lx, v);
    lemma_update_lines_single(t, lines_of(t), k, v, li);
    lemma_lines_from_clean(t, Seq::empty());
    assert(no_nl(lx) && no_cr(lx));
    match (first_char_match(lx, ':'), first_match(lx, oldv)) {
        (Some(j), Some(a)) => {
            crate::text::lemma_first_char_match(lx, ':');
            crate::text::lemma_first_match(lx, oldv);
            assert(occurs_at(lx, oldv, a));
            let np = lx.subrange(0, a);
            let ns = v + lx.subrange(a + oldv.len() as int, lx.len() as int);
            assert(newl == np + v + lx.subrange(a + oldv.len() as int, lx.len() as int));
            assert(newl =~= np + ns);
            assert(no_nl(newl) && no_cr(newl)) by {
                assert(forall|m: int| 0 <= m < a ==> newl[m] == lx[m]);
                assert(forall|m: int| a <= m < a + v.len() ==> newl[m] == v[m - a]);
                assert(forall|m: int|
                    a + v.len() <= m < newl.len() ==> newl[m] == lx[m + oldv.len() - v.len()]);
            }
            assert(newl.len() > 0);
            assert forall|m: int| 0 <= m < li implies !has_sub(#[trigger] lines_of(t)[m], lx) by {
                if has_sub(lines_of(t)[m], lx) {
                    crate::text::lemma_has_sub_trans(lines_of(t)[m], lx, k);
                }
            }
            lemma_replace_line(t, li, newl);
            let t1 = replaced(t, lx, newl);
            assert(lines_of(t1) == lines_of(t).update(li, newl));
            // The key still occurs, in the part of the line left untouched.
            assert(has_sub(newl, k)) by {
                let i0 = choose|i0: int| occurs_at(np, k, i0);
                crate::text::lemma_occurs_in_prefix(np, ns, k, i0);
                assert(occurs_at(np + ns, k, i0));
            }
            assert(unique_match_at(t1, k, li)) by {
                assert forall|m: int|
                    0 <= m < lines_of(t1).len() && m != li implies !has_sub(
                    #[trigger] lines_of(t1)[m],
                    k,
                ) by {
                    assert(lines_of(t1)[m] == lines_of(t)[m]);
                }
            }
            // The rewritten line reads back as exactly the new value.
            assert(forall|m: int| 0 <= m < a ==> newl[m] == lx[m]);
            crate::text::lemma_first_char_match_is(newl, ':', j);
            assert(newl.subrange(j + 1, newl.len() as int) =~= lx.subrange(j + 1, a) + v
                + lx.subrange(a + oldv.len() as int, lx.len() as int));
            assert(line_value(newl) == v);
        },
        _ => {
            assert(false);
        },
    }
}

/// Round trip: after a single update of a key whose one matching line has
/// the clean shape, reading the key back yields exactly the value written.
pub proof fn lemma_update_round_trip(t: Seq<char>, k: Seq<char>, v: Seq<char>, li: int)
    requires
        no_cr(t),
        no_nl(v),
        no_cr(v),
        unique_match_at(t, k, li),
        line_rewrites_cleanly(lines_of(t)[li], k, v),
    ensures
        value_of(updated(t, k, v), k) == v,
{
    lemma_single_update(t, k, v, li);
    let t1 = updated(t, k, v);
    lemma_last_value_single(lines_of(t1), k, li);
}

/// Idempotence: updating a key to a value and then updating it to the same
/// value again changes nothing the second time — the text after two
/// updates is the text after one.
pub proof fn lemma_update_idempotent(t: Seq<char>, k: Seq<char>, v: Seq<char>, li: int)
    requires
        no_cr(t),
        no_nl(v),
        no_cr(v),
        unique_match_at(t, k, li),
        line_rewrites_cleanly(lines_of(t)[li], k, v),
    ensures
        updated(updated(t, k, v), k, v) == updated(t, k, v),
{
    lemma_single_update(t, k, v, li);
    let t1 = updated(t, k, v);
    let newl = lines_of(t1)[li];
    lemma_update_lines_single(t1, lines_of(t1), k, v, li);
    assert(line_value(newl) == v);
    crate::text::lemma_replace_self(newl, v);
    assert(rewrite_line(newl, v) == newl);
    crate::text::lemma_replace_self(t1, newl);
}

/// A value the extraction rule passes through unchanged: non-empty, no
/// surrounding whitespace, and no quote at either end.
pub open spec fn benign_value(x: Seq<char>) -> bool {
    &&& x.len() > 0
    &&& !is_ws(x.first())
    &&& !is_ws(x.last())
    &&& x.first() != '"'
    &&& x.last() != '"'
}

proof fn lemma_cleaned_padded(x: Seq<char>)
    requires
        benign_value(x),
    ensures
        cleaned(seq![' '] + x + seq![',']) == x,
{
    let s = seq![' '] + x + seq![','];
    assert(s.first() == ' ');
    assert(s.drop_first() =~= x + seq![',']);
    assert((x + seq![',']).first() == x.first());
    assert(trim_left(x + seq![',']) == x + seq![',']);
    assert(trim_left(s) == x + seq![',']);
    assert((x + seq![',']).last() == ',');
    assert(trim_right(x + seq![',']) == x + seq![',']);
    assert((x + seq![',']).drop_last() =~= x);
    assert(strip_trailing_comma(x + seq![',']) == x);
    assert(trim_left(x) == x);
    assert(trim_right(x) == x);
    assert(strip_quotes(x) == x);
}

/// The marker-file line `key: value,` carries exactly `value`, and
/// rewriting it with any benign new value is clean — so the round-trip and
/// idempotence laws apply to a text whose one matching line has this
/// shape. The last hypothesis rules a value out that already appears
/// earlier in its own line (say, inside the key).
pub proof fn lemma_marker_line_rewrites_cleanly(k: Seq<char>, oldv: Seq<char>, v: Seq<char>)
    requires
        k.len() > 0,
        forall|m: int| 0 <= m < k.len() ==> k[m] != ':',
        benign_value(oldv),
        benign_value(v),
        forall|j: int|
            0 <= j < k.len() + 2 ==> !occurs_at(k + seq![':', ' '] + oldv + seq![','], oldv, j),
    ensures
        line_value(k + seq![':', ' '] + oldv + seq![',']) == oldv,
        line_rewrites_cleanly(k + seq![':', ' '] + oldv + seq![','], k, v),
{
    let l = k + seq![':', ' '] + oldv + seq![','];
    let j = k.len() as int;
    let a: int = k.len() as int + 2;
    assert(l[j] == ':');
    assert(forall|m: int| 0 <= m < j ==> l[m] == k[m]);
    crate::text::lemma_first_char_match_is(l, ':', j);
    assert(l.subrange(j + 1, l.len() as int) =~= seq![' '] + oldv + seq![',']);
    lemma_cleaned_padded(oldv);
    assert(line_value(l) == oldv);
    assert(occurs_at(l, oldv, a)) by {
        assert(l.subrange(a, a + oldv.len() as int) =~= oldv);
    }
    crate::text::lemma_first_match_is(l, oldv, a);
    assert(has_sub(l.subrange(0, a), k)) by {
        assert(l.subrange(0, a).subrange(0, k.len() as int) =~= k);
        assert(occurs_at(l.subrange(0, a), k, 0));
    }
    assert(l.subrange(j + 1, a) =~= seq![' ']);
    assert(l.subrange(a + oldv.len() as int, l.len() as int) =~= seq![',']);
    lemma_cleaned_padded(v);
}

proof fn lemma_cleaned_quoted(x: Seq<char>)
    requires
        benign_value(x),
    ensures
        cleaned(seq![' ', '"'] + x + seq!['"', ',']) == x,
{
    let s = seq![' ', '"'] + x + seq!['"', ','];
    let s1 = seq!['"'] + x + seq!['"', ','];
    let s2 = seq!['"'] + x + seq!['"'];
    let s3 = seq!['"'] + x;
    assert(s.first() == ' ');
    assert(s.drop_first() =~= s1);
    assert(s1.first() == '"');
    assert(trim_left(s1) == s1);
    assert(trim_left(s) == s1);
    assert(s1.last() == ',');
    assert(trim_right(s1) == s1);
    assert(s1.drop_last() =~= s2);
    assert(strip_trailing_comma(s1) == s2);
    assert(s2.first() == '"');
    assert(s2.last() == '"');
    assert(trim_left(s2) == s2);
    assert(trim_right(s2) == s2);
    assert(s2.drop_last() =~= s3);
    assert(s3.first() == '"');
    assert(s3.drop_first() =~= x);
    assert(strip_quotes(s2) == x);
    assert(trim_left(x) == x);
    assert(trim_right(x) == x);
}

/// The manifest line `  "key": "value",` carries exactly `value`, and
/// rewriting it with any benign new value is clean — the quotes and comma
/// around the value slot are preserved and stripped again on the next
/// read. The last hypothesis rules a value out that already appears
/// earlier in its own line.
pub proof fn lemma_manifest_line_rewrites_cleanly(k: Seq<char>, oldv: Seq<char>, v: Seq<char>)
    requires
        k.len() > 0,
        forall|m: int| 0 <= m < k.len() ==> k[m] != ':',
        benign_value(oldv),
        benign_value(v),
        forall|j: int|
            0 <= j < k.len() + 7 ==> !occurs_at(
                seq![' ', ' ', '"'] + k + seq!['"', ':', ' ', '"'] + oldv + seq!['"', ','],
                oldv,
                j,
            ),
    ensures
        line_value(seq![' ', ' ', '"'] + k + seq!['"', ':', ' ', '"'] + oldv + seq!['"', ','])
            == oldv,
        line_rewrites_cleanly(
            seq![' ', ' ', '"'] + k + seq!['"', ':', ' ', '"'] + oldv + seq!['"', ','],
            k,
            v,
        ),
{
    let l = seq![' ', ' ', '"'] + k + seq!['"', ':', ' ', '"'] + oldv + seq!['"', ','];
    let j: int = k.len() as int + 4;
    let a: int = k.len() as int + 7;
    assert(l[j] == ':');
    assert forall|m: int| 0 <= m < j implies l[m] != ':' by {
        if 3 <= m < 3 + k.len() {
            assert(l[m] == k[m - 3]);
        }
    }
    crate::text::lemma_first_char_match_is(l, ':', j);
    assert(l.subrange(j + 1, l.len() as int) =~= seq![' ', '"'] + oldv + seq!['"', ',']);
    lemma_cleaned_quoted(oldv);
    assert(line_value(l) == oldv);
    assert(occurs_at(l, oldv, a)) by {
        assert(l.subrange(a, a + oldv.len() as int) =~= oldv);
    }
    crate::text::lemma_first_match_is(l, oldv, a);
    assert(has_sub(l.subrange(0, a), k)) by {
        assert(l.subrange(0, a).subrange(3, 3 + k.len() as int) =~= k);
        assert(occurs_at(l.subrange(0, a), k, 3));
    }
    assert(l.subrange(j + 1, a) =~= seq![' ', '"']);
    assert(l.subrange(a + oldv.len() as int, l.len() as int) =~= seq!['"', ',']);
    lemma_cleaned_quoted(v);
}

/// The laws applied to a whole marker file of the canonical shape
/// `key: value,` on the first line and one other line after it: writing a
/// benign value for the key and reading it back yields that value, and
/// writing it a second time changes nothing.
pub proof fn lemma_marker_file_laws(k: Seq<char>, oldv: Seq<char>, other: Seq<char>, v: Seq<char>)
    requires
        k.len() > 0,
        no_nl(k),
        no_cr(k),
        forall|m: int| 0 <= m < k.len() ==> k[m] != ':',
        no_nl(oldv),
        no_cr(oldv),
        benign_value(oldv),
        no_nl(v),
        no_cr(v),
        benign_value(v),
        no_nl(other),
        no_cr(other),
        !has_sub(other, k),
        forall|j: int|
            0 <= j < k.len() + 2 ==> !occurs_at(k + seq![':', ' '] + oldv + seq![','], oldv, j),
    ensures
        value_of(
            updated(
                (k + seq![':', ' '] + oldv + seq![',']) + seq!['\n'] + other + seq!['\n'],
                k,
                v,
            ),
            k,
        ) == v,
        updated(
            updated(
                (k + seq![':', ' '] + oldv + seq![',']) + seq!['\n'] + other + seq!['\n'],
                k,
                v,
            ),
            k,
            v,
        ) == updated(
            (k + seq![':', ' '] + oldv + seq![',']) + seq!['\n'] + other + seq!['\n'],
            k,
            v,
        ),
{
    let line = k + seq![':', ' '] + oldv + seq![','];
    let t = line + seq!['\n'] + other + seq!['\n'];
    assert(no_nl(line) && no_cr(line)) by {
        assert(forall|m: int| 0 <= m < k.len() ==> line[m] == k[m]);
        assert(line[k.len() as int] == ':');
        assert(line[k.len() as int + 1] == ' ');
        assert(forall|m: int|
            k.len() + 2 <= m < k.len() + 2 + oldv.len() ==> line[m] == oldv[m - k.len() - 2]);
        assert(line[line.len() - 1] == ',');
    }
    crate::text::lemma_lines_of_pair(line, other);
    assert(no_cr(t)) by {
        assert(forall|m: int| 0 <= m < line.len() ==> t[m] == line[m]);
        assert(t[line.len() as int] == '\n');
        assert(forall|m: int|
            line.len() + 1 <= m < line.len() + 1 + other.len() ==> t[m] == other[m - line.len()
                - 1]);
        assert(t[t.len() - 1] == '\n');
    }
    assert(has_sub(line, k)) by {
        assert(line.subrange(0, k.len() as int) =~= k);
        assert(occurs_at(line, k, 0));
    }
    assert(unique_match_at(t, k, 0));
    lemma_marker_line_rewrites_cleanly(k, oldv, v);
    lemma_update_round_trip(t, k, v, 0);
    lemma_update_idempotent(t, k, v, 0);
}

/// The slice without leading whitespace.
fn trim_start(s: &str) -> (r: &str)
    ensures
        r@ == trim_left(s@),
    decreases s@.len(),
{
    let n = s.unicode_len();
    if n > 0 {
        let c = s.get_char(0);
        if c == ' ' || c == '\t' || c == '\r' {
            let rest = s.substring_char(1, n);
            proof {
                assert(rest@ =~= s@.drop_first());
            }
            return trim_start(rest);
        }
    }
    s
}

/// The slice without trailing whitespace.
fn trim_end(s: &str) -> (r: &str)
    ensures
        r@ == trim_right(s@),
    decreases s@.len(),
{
    let n = s.unicode_len();
    if n > 0 {
        let c = s.get_char(n - 1);
        if c == ' ' || c == '\t' || c == '\r' {
            let rest = s.substring_char(0, n - 1);
            proof {
                assert(rest@ =~= s@.drop_last());
            }
            return trim_end(rest);
        }
    }
    s
}

/// The raw text after a line's colon, cleaned by the extraction rule.
fn clean_value(s: &str) -> (r: String)
    ensures
        r@ == cleaned(s@),
{
    let t1 = trim_end(trim_start(s));
    let n1 = t1.unicode_len();
    let t2 = if n1 > 0 && t1.get_char(n1 - 1) == ',' {
        t1.substring_char(0, n1 - 1)
    } else {
        t1
    };
    proof {
        assert(t2@ =~= strip_trailing_comma(trimmed(s@)));
    }
    let t3 = trim_end(trim_start(t2));
    let n3 = t3.unicode_len();
    let t4 = if n3 > 0 && t3.get_char(n3 - 1) == '"' {
        t3.substring_char(0, n3 - 1)
    } else {
        t3
    };
    let n4 = t4.unicode_len();
    let t5 = if n4 > 0 && t4.get_char(0) == '"' {
        t4.substring_char(1, n4)
    } else {
        t4
    };
    proof {
        assert(t5@ =~= strip_quotes(trimmed(strip_trailing_comma(trimmed(s@)))));
    }
    let t6 = trim_end(trim_start(t5));
    t6.to_owned()
}

/// The value one line carries: everything after its first `:`, cleaned;
/// empty when the line has no colon.
pub fn extract_value(line: &str) -> (r: String)
    ensures
        r@ == line_value(line@),
{
    match find_char(line, ':') {
        Some(j) => {
            proof {
                crate::text::lemma_first_char_match(line@, ':');
            }
            let n = line.unicode_len();
            clean_value(line.substring_char(j + 1, n))
        },
        None => String::new(),
    }
}

/// Reads the value for `key` from the key/value text `contents`: the last
/// line in which `key` occurs wins; when no line matches, the value is the
/// empty string.
pub fn get_value(contents: &str, key: &str) -> (r: String)
    ensures
        r@ == value_of(contents@, key@),
{
    let lines = split_lines(contents);
    let mut value = String::new();
    let mut i: usize = 0;
    proof {
        assert(lines.deep_view().subrange(0, 0) =~= Seq::<Seq<char>>::empty());
    }
    while i < lines.len()
        invariant
            i <= lines.len(),
            lines.deep_view() == lines_of(contents@),
            value@ == last_value(lines.deep_view().subrange(0, i as int), key@),
        decreases lines.len() - i,
    {
        let line: &String = &lines[i];
        let ghost prefix = lines.deep_view().subrange(0, i as int);
        if contains_sub(line.as_str(), key) {
            value = extract_value(line.as_str());
        }
        proof {
            let next = lines.deep_view().subrange(0, i + 1);
            assert(next.drop_last() =~= prefix);
            assert(next.last() == lines.deep_view()[i as int]);
        }
        i = i + 1;
    }
    proof {
        assert(lines.deep_view().subrange(0, lines.deep_view().len() as int) =~= lines.deep_view());
    }
    value
}

/// Writes `new_value` for `key` into the key/value text `contents` and
/// returns the rewritten text, together with whether any line matched the
/// key. When no line matches, the text comes back unchanged.
pub fn update_value(contents: &str, key: &str, new_value: &str) -> (r: (String, bool))
    ensures
        r.0@ == updated(contents@, key@, new_value@),
        r.1 == has_key(contents@, key@),
{
    let lines = split_lines(contents);
    let mut acc: String = contents.to_owned();
    let mut found = false;
    let mut i: usize = 0;
    proof {
        assert(lines.deep_view().subrange(0, lines.deep_view().len() as int) =~= lines.deep_view());
    }
    while i < lines.len()
        invariant
            i <= lines.len(),
            lines.deep_view() == lines_of(contents@),
            updated(contents@, key@, new_value@) == update_lines(
                acc@,
                lines.deep_view().subrange(i as int, lines.deep_view().len() as int),
                key@,
                new_value@,
            ),
            found == exists|m: int|
                0 <= m < i && has_sub(#[trigger] lines.deep_view()[m], key@),
        decreases lines.len() - i,
    {
        let line: &String = &lines[i];
        let ghost suffix = lines.deep_view().subrange(i as int, lines.deep_view().len() as int);
        proof {
            assert(suffix.first() == lines.deep_view()[i as int]);
            assert(suffix.drop_first() =~= lines.deep_view().subrange(
                i + 1,
                lines.deep_view().len() as int,
            ));
        }
        if contains_sub(line.as_str(), key) {
            let old_v = extract_value(line.as_str());
            let new_line = replace_first(line.as_str(), old_v.as_str(), new_value);
            acc = replace_first(acc.as_str(), line.as_str(), new_line.as_str());
            found = true;
            proof {
                assert(has_sub(lines.deep_view()[i as int], key@));
            }
        }
        i = i + 1;
    }
    proof {
        assert(lines.deep_view().subrange(
            lines.deep_view().len() as int,
            lines.deep_view().len() as int,
        ) =~= Seq::<Seq<char>>::empty());
    }
    (acc, found)
}

} // verus!
