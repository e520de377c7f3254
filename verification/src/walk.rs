//! Deterministic ordering of marker-file paths. Directory enumeration order
//! differs across platforms and filesystems, so the walker's output is
//! sorted by the lexicographic order of the paths' string form; that makes
//! "first discovered" — and with it the whole license expression — the same
//! everywhere.

use vstd::prelude::*;

use vstd::relations::sorted_by;
use vstd::relations::total_ordering;
use vstd::seq_lib::lemma_sorted_unique;

verus! {

/// Lexicographic order on character sequences, by code point.
pub open spec fn lex_leq(a: Seq<char>, b: Seq<char>) -> bool
    decreases a.len(),
{
    if a.len() == 0 {
        true
    } else if b.len() == 0 {
        false
    } else if a[0] == b[0] {
        lex_leq(a.drop_first(), b.drop_first())
    } else {
        (a[0] as u32) < (b[0] as u32)
    }
}

/// The lexicographic order as a relation value, for the ordering lemmas.
pub open spec fn lex_order() -> spec_fn(Seq<char>, Seq<char>) -> bool {
    |a: Seq<char>, b: Seq<char>| lex_leq(a, b)
}

proof fn lemma_lex_refl(a: Seq<char>)
    ensures
        lex_leq(a, a),
    decreases a.len(),
{
    if a.len() > 0 {
        lemma_lex_refl(a.drop_first());
    }
}

proof fn lemma_lex_antisym(a: Seq<char>, b: Seq<char>)
    requires
        lex_leq(a, b),
        lex_leq(b, a),
    ensures
        a == b,
    decreases a.len(),
{
    if a.len() == 0 {
        assert(b.len() == 0);
        assert(a =~= b);
    } else {
        assert(b.len() > 0);
        if a[0] == b[0] {
            lemma_lex_antisym(a.drop_first(), b.drop_first());
            assert(a.drop_first().len() == b.drop_first().len());
            assert(a.len() == b.len());
            assert forall|i: int| 0 <= i < a.len() implies a[i] == b[i] by {
                if i > 0 {
                    assert(a.drop_first()[i - 1] == b.drop_first()[i - 1]);
                }
            }
            assert(a =~= b);
        }
    }
}

proof fn lemma_lex_trans(a: Seq<char>, b: Seq<char>, c: Seq<char>)
    requires
        lex_leq(a, b),
        lex_leq(b, c),
    ensures
        lex_leq(a, c),
    decreases a.len(),
{
    if a.len() == 0 {
    } else {
        assert(b.len() > 0);
        assert(c.len() > 0);
        if a[0] == b[0] && b[0] == c[0] {
            lemma_lex_trans(a.drop_first(), b.drop_first(), c.drop_first());
        }
    }
}

proof fn lemma_char_code_distinct(a: char, b: char)
    requires
        a != b,
    ensures
        (a as u32) != (b as u32),
{
}

proof fn lemma_lex_connected(a: Seq<char>, b: Seq<char>)
    ensures
        lex_leq(a, b) || lex_leq(b, a),
    decreases a.len(),
{
    if a.len() > 0 && b.len() > 0 {
        if a[0] == b[0] {
            lemma_lex_connected(a.drop_first(), b.drop_first());
        } else {
            lemma_char_code_distinct(a[0], b[0]);
        }
    }
}

/// The lexicographic order is a total order, so sorting by it gives one
/// well-defined result.
pub proof fn lemma_lex_total_ordering()
    ensures
        total_ordering(lex_order()),
{
    assert forall|a: Seq<char>| #[trigger] lex_order()(a, a) by {
        lemma_lex_refl(a);
    }
    assert forall|a: Seq<char>, b: Seq<char>|
        #[trigger] lex_order()(a, b) && #[trigger] lex_order()(b, a) implies a == b by {
        lemma_lex_antisym(a, b);
    }
    assert forall|a: Seq<char>, b: Seq<char>, c: Seq<char>|
        #[trigger] lex_order()(a, b) && #[trigger] lex_order()(b, c) implies lex_order()(a, c) by {
        lemma_lex_trans(a, b, c);
    }
    assert forall|a: Seq<char>, b: Seq<char>|
        #[trigger] lex_order()(a, b) || #[trigger] lex_order()(b, a) by {
        lemma_lex_connected(a, b);
    }
}

/// Whether `a` comes no later than `b` in the lexicographic order.
pub fn str_lex_leq(a: &str, b: &str) -> (r: bool)
    ensures
        r == lex_leq(a@, b@),
    decreases a@.len(),
{
    let alen = a.unicode_len();
    let blen = b.unicode_len();
    if alen == 0 {
        true
    } else if blen == 0 {
        false
    } else {
        let ca = a.get_char(0);
        let cb = b.get_char(0);
        if ca == cb {
            let ra = a.substring_char(1, alen);
            let rb = b.substring_char(1, blen);
            proof {
                assert(ra@ =~= a@.drop_first());
                assert(rb@ =~= b@.drop_first());
            }
            str_lex_leq(ra, rb)
        } else {
            (ca as u32) < (cb as u32)
        }
    }
}

/// Sorts the discovered marker paths by the lexicographic order of their
/// string form: the output is sorted and holds exactly the input paths.
pub fn sort_paths(paths: Vec<String>) -> (r: Vec<String>)
    ensures
        sorted_by(r.deep_view(), lex_order()),
        r.deep_view().to_multiset() == paths.deep_view().to_multiset(),
{
    broadcast use vstd::seq_lib::group_to_multiset_ensures;

    let mut rest = paths;
    let mut res: Vec<String> = Vec::new();
    proof {
        assert(res.deep_view() =~= Seq::<Seq<char>>::empty());
        assert(res.deep_view().to_multiset().add(rest.deep_view().to_multiset())
            =~= paths.deep_view().to_multiset());
    }
    while rest.len() > 0
        invariant
            res.deep_view().to_multiset().add(rest.deep_view().to_multiset())
                == paths.deep_view().to_multiset(),
            sorted_by(res.deep_view(), lex_order()),
            forall|x: int, y: int|
                0 <= x < res.deep_view().len() && 0 <= y < rest.deep_view().len() ==> lex_leq(
                    #[trigger] res.deep_view()[x],
                    #[trigger] rest.deep_view()[y],
                ),
        decreases rest.len(),
    {
        let mut min: usize = 0;
        let mut j: usize = 1;
        proof {
            lemma_lex_refl(rest.deep_view()[0]);
        }
        while j < rest.len()
            invariant
                min < j <= rest.len(),
                rest.len() > 0,
                forall|y: int|
                    0 <= y < j ==> lex_leq(
                        rest.deep_view()[min as int],
                        #[trigger] rest.deep_view()[y],
                    ),
            decreases rest.len() - j,
        {
            if str_lex_leq(rest[j].as_str(), rest[min].as_str()) {
                proof {
                    lemma_lex_total_ordering();
                    assert forall|y: int| 0 <= y < j + 1 implies lex_leq(
                        rest.deep_view()[j as int],
                        #[trigger] rest.deep_view()[y],
                    ) by {
                        if y < j {
                            lemma_lex_trans(
                                rest.deep_view()[j as int],
                                rest.deep_view()[min as int],
                                rest.deep_view()[y],
                            );
                        } else {
                            lemma_lex_refl(rest.deep_view()[j as int]);
                        }
                    }
                }
                min = j;
            } else {
                proof {
                    lemma_lex_connected(rest.deep_view()[min as int], rest.deep_view()[j as int]);
                }
            }
            j = j + 1;
        }
        let ghost res0 = res.deep_view();
        let ghost rest0 = rest.deep_view();
        let x = rest.remove(min);
        res.push(x);
        proof {
            broadcast use vstd::multiset::group_multiset_axioms;
            broadcast use vstd::seq_lib::group_to_multiset_ensures;

            assert(rest.deep_view() =~= rest0.remove(min as int));
            assert(res.deep_view() =~= res0.push(rest0[min as int]));
            assert(rest0.contains(rest0[min as int]));
            assert(rest0.to_multiset().count(rest0[min as int]) > 0);
            assert(rest0.remove(min as int).to_multiset() =~= rest0.to_multiset().remove(
                rest0[min as int],
            ));
            assert(rest0.to_multiset() =~= rest0.remove(min as int).to_multiset().insert(
                rest0[min as int],
            ));
            assert(res.deep_view().to_multiset().add(rest.deep_view().to_multiset())
                =~= paths.deep_view().to_multiset());
            assert forall|xi: int, yi: int|
                0 <= xi < res.deep_view().len() && 0 <= yi < rest.deep_view().len() implies lex_leq(
                #[trigger] res.deep_view()[xi],
                #[trigger] rest.deep_view()[yi],
            ) by {
                let orig_y: int = if yi < min { yi } else { yi + 1 };
                assert(rest.deep_view()[yi] == rest0[orig_y]);
                if xi < res0.len() {
                    assert(lex_leq(res0[xi], rest0[orig_y]));
                } else {
                    assert(res.deep_view()[xi] == rest0[min as int]);
                    assert(lex_leq(rest0[min as int], rest0[orig_y]));
                }
            }
            assert forall|xi: int, yi: int|
                0 <= xi < yi < res.deep_view().len() implies lex_order()(
                #[trigger] res.deep_view()[xi],
                #[trigger] res.deep_view()[yi],
            ) by {
                if yi < res0.len() {
                    assert(sorted_by(res0, lex_order()));
                } else {
                    assert(res.deep_view()[yi] == rest0[min as int]);
                    assert(lex_leq(res0[xi], rest0[min as int]));
                }
            }
        }
    }
    proof {
        assert(rest.deep_view() =~= Seq::<Seq<char>>::empty());
        assert(res.deep_view().to_multiset().add(Seq::<Seq<char>>::empty().to_multiset())
            =~= res.deep_view().to_multiset());
    }
    res
}

/// Two path sequences that are both sorted and hold the same paths are the
/// same sequence: the walker's output does not depend on the order in which
/// the directories were enumerated.
pub proof fn lemma_sorted_paths_unique(r1: Seq<Seq<char>>, r2: Seq<Seq<char>>)
    requires
        sorted_by(r1, lex_order()),
        sorted_by(r2, lex_order()),
        r1.to_multiset() == r2.to_multiset(),
    ensures
        r1 == r2,
{
    lemma_lex_total_ordering();
    lemma_sorted_unique(r1, r2, lex_order());
}

/// Position of the last path separator in `p`, if any.
pub open spec fn last_separator(p: Seq<char>) -> Option<int>
    decreases p.len(),
{
    if p.len() == 0 {
        None
    } else if p.last() == '/' {
        Some(p.len() - 1)
    } else {
        last_separator(p.drop_last())
    }
}

/// The parent directory of a `/`-separated path: everything before the last
/// separator; `None` for a path without one.
pub fn get_parent_dir(path: &str) -> (r: Option<String>)
    ensures
        match r {
            Some(s) => last_separator(path@) matches Some(i) && s@ == path@.subrange(0, i),
            None => last_separator(path@) is None,
        },
    decreases path@.len(),
{
    let n = path.unicode_len();
    if n == 0 {
        None
    } else if path.get_char(n - 1) == '/' {
        Some(path.substring_char(0, n - 1).to_owned())
    } else {
        let head = path.substring_char(0, n - 1);
        proof {
            assert(head@ =~= path@.drop_last());
        }
        match get_parent_dir(head) {
            Some(s) => {
                proof {
                    lemma_last_separator_bounds(head@);
                    assert(head@.subrange(0, last_separator(head@).unwrap()) =~= path@.subrange(
                        0,
                        last_separator(head@).unwrap(),
                    ));
                }
                Some(s)
            },
            None => None,
        }
    }
}

proof fn lemma_last_separator_bounds(p: Seq<char>)
    ensures
        last_separator(p) matches Some(i) ==> 0 <= i < p.len(),
    decreases p.len(),
{
    if p.len() > 0 && p.last() != '/' {
        lemma_last_separator_bounds(p.drop_last());
    }
}

} // verus!
