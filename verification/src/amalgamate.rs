//! Folding the license fields of every marker file in a component tree into
//! one SPDX-style expression: the source-license values and the
//! documentation-license values are each deduplicated in first-seen order,
//! concatenated, joined with ` AND ` and wrapped in one pair of parentheses,
//! and the result is written into the manifest's `license` line.

use vstd::prelude::*;

use crate::kv::has_key;
use crate::kv::updated;
use crate::kv::value_of;
use crate::platform::is_newline;

use crate::kv::get_value;
use crate::kv::update_value;
use crate::platform::get_newline;

verus! {

/// The distinct values of `s` in order of first appearance.
pub open spec fn dedup_first_seen(s: Seq<Seq<char>>) -> Seq<Seq<char>>
    decreases s.len(),
{
    if s.len() == 0 {
        Seq::empty()
    } else {
        let d = dedup_first_seen(s.drop_last());
        if d.contains(s.last()) {
            d
        } else {
            d.push(s.last())
        }
    }
}

/// The terms joined with ` AND `: empty for no terms, the term itself for
/// one, and one separator between any two adjacent terms.
pub open spec fn joined_terms(terms: Seq<Seq<char>>) -> Seq<char>
    decreases terms.len(),
{
    if terms.len() == 0 {
        Seq::empty()
    } else if terms.len() == 1 {
        terms[0]
    } else {
        joined_terms(terms.drop_last()) + " AND "@ + terms.last()
    }
}

/// The terms joined with ` AND ` and wrapped in one pair of parentheses.
pub open spec fn expression(terms: Seq<Seq<char>>) -> Seq<char> {
    "("@ + joined_terms(terms) + ")"@
}

/// The source-license value each marker text carries, in walk order.
pub open spec fn source_values(cs: Seq<Seq<char>>) -> Seq<Seq<char>> {
    cs.map_values(|c: Seq<char>| value_of(c, "source_license"@))
}

/// The documentation-license value each marker text carries, in walk order.
pub open spec fn doc_values(cs: Seq<Seq<char>>) -> Seq<Seq<char>> {
    cs.map_values(|c: Seq<char>| value_of(c, "documentation_license"@))
}

/// The term list of the combined expression: distinct source licenses in
/// first-seen order, then distinct documentation licenses in first-seen
/// order. The two lists are deduplicated independently.
pub open spec fn license_terms(cs: Seq<Seq<char>>) -> Seq<Seq<char>> {
    dedup_first_seen(source_values(cs)) + dedup_first_seen(doc_values(cs))
}

/// The combined license expression for the marker texts `cs`.
pub open spec fn license_expr(cs: Seq<Seq<char>>) -> Seq<char> {
    expression(license_terms(cs))
}

/// Position of the first occurrence of `x` in `s` (meaningful when `x` is
/// in `s`).
pub open spec fn first_index_of(s: Seq<Seq<char>>, x: Seq<char>) -> int
    decreases s.len(),
{
    if s.len() == 0 {
        0
    } else if s.first() == x {
        0
    } else {
        1 + first_index_of(s.drop_first(), x)
    }
}

/// `first_index_of` points at the first occurrence.
pub proof fn lemma_first_index_of(s: Seq<Seq<char>>, x: Seq<char>)
    requires
        s.contains(x),
    ensures
        0 <= first_index_of(s, x) < s.len(),
        s[first_index_of(s, x)] == x,
        forall|m: int| 0 <= m < first_index_of(s, x) ==> s[m] != x,
    decreases s.len(),
{
    if s.first() == x {
    } else {
        assert(s.drop_first().contains(x)) by {
            let w = choose|w: int| 0 <= w < s.len() && s[w] == x;
            assert(s.drop_first()[w - 1] == x);
        }
        lemma_first_index_of(s.drop_first(), x);
        assert forall|m: int| 0 <= m < first_index_of(s, x) implies s[m] != x by {
            if m > 0 {
                assert(s.drop_first()[m - 1] == s[m]);
            }
        }
    }
}

/// Appending one value moves no earlier first occurrence.
proof fn lemma_first_index_of_push(s: Seq<Seq<char>>, a: Seq<char>, x: Seq<char>)
    ensures
        s.contains(x) ==> first_index_of(s.push(a), x) == first_index_of(s, x),
        !s.contains(x) && x == a ==> first_index_of(s.push(a), x) == s.len(),
    decreases s.len(),
{
    if s.len() == 0 {
        assert(s.push(a).first() == a);
        if x == a {
        }
    } else {
        assert(s.push(a).first() == s.first());
        assert(s.push(a).drop_first() =~= s.drop_first().push(a));
        if s.first() == x {
        } else {
            lemma_first_index_of_push(s.drop_first(), a, x);
            if s.contains(x) {
                assert(s.drop_first().contains(x)) by {
                    let w = choose|w: int| 0 <= w < s.len() && s[w] == x;
                    assert(s.drop_first()[w - 1] == x);
                }
            } else {
                assert(!s.drop_first().contains(x)) by {
                    if s.drop_first().contains(x) {
                        let w = choose|w: int|
                            0 <= w < s.drop_first().len() && s.drop_first()[w] == x;
                        assert(s[w + 1] == x);
                    }
                }
            }
        }
    }
}

/// Deduplication keeps exactly the distinct values, each once, in the
/// order in which they first appeared — not sorted.
pub proof fn lemma_dedup_first_seen(s: Seq<Seq<char>>)
    ensures
        forall|x: Seq<char>| dedup_first_seen(s).contains(x) <==> s.contains(x),
        forall|i: int, j: int|
            0 <= i < j < dedup_first_seen(s).len() ==> dedup_first_seen(s)[i] != dedup_first_seen(
                s,
            )[j],
        forall|i: int, j: int|
            0 <= i < j < dedup_first_seen(s).len() ==> first_index_of(s, dedup_first_seen(s)[i])
                < first_index_of(s, dedup_first_seen(s)[j]),
    decreases s.len(),
{
    if s.len() == 0 {
    } else {
        let s0 = s.drop_last();
        let a = s.last();
        let d0 = dedup_first_seen(s0);
        let d = dedup_first_seen(s);
        lemma_dedup_first_seen(s0);
        assert(s =~= s0.push(a));
        assert forall|x: Seq<char>| s0.contains(x) implies s.contains(x) by {
            let w = choose|w: int| 0 <= w < s0.len() && s0[w] == x;
            assert(s[w] == x);
        }
        assert forall|x: Seq<char>| d.contains(x) implies s.contains(x) by {
            if d0.contains(x) {
            } else {
                assert(x == a);
                assert(s[s.len() - 1] == a);
            }
        }
        assert forall|x: Seq<char>| s.contains(x) implies d.contains(x) by {
            let w = choose|w: int| 0 <= w < s.len() && s[w] == x;
            if w < s0.len() {
                assert(s0[w] == x);
                assert(s0.contains(x));
                assert(d0.contains(x));
                if !d0.contains(a) {
                    assert(d =~= d0.push(a));
                    let v = choose|v: int| 0 <= v < d0.len() && d0[v] == x;
                    assert(d[v] == x);
                }
            } else {
                assert(x == a);
                if d0.contains(a) {
                } else {
                    assert(d =~= d0.push(a));
                    assert(d[d.len() - 1] == a);
                }
            }
        }
        if d0.contains(a) {
            assert(d == d0);
            assert forall|i: int, j: int| 0 <= i < j < d.len() implies first_index_of(s, d[i])
                < first_index_of(s, d[j]) by {
                assert(d0.contains(d0[i]));
                assert(d0.contains(d0[j]));
                lemma_first_index_of_push(s0, a, d0[i]);
                lemma_first_index_of_push(s0, a, d0[j]);
            }
        } else {
            assert(d == d0.push(a));
            assert forall|i: int, j: int| 0 <= i < j < d.len() implies d[i] != d[j] by {
                if j < d0.len() {
                } else {
                    assert(d[j] == a);
                    assert(d0.contains(d0[i]));
                }
            }
            assert forall|i: int, j: int| 0 <= i < j < d.len() implies first_index_of(s, d[i])
                < first_index_of(s, d[j]) by {
                if j < d0.len() {
                    lemma_first_index_of_push(s0, a, d0[i]);
                    lemma_first_index_of_push(s0, a, d0[j]);
                    assert(d0.contains(d0[i]));
                    assert(d0.contains(d0[j]));
                } else {
                    assert(d[j] == a);
                    assert(d0.contains(d0[i]));
                    assert(s0.contains(d0[i]));
                    lemma_first_index_of_push(s0, a, d0[i]);
                    lemma_first_index_of_push(s0, a, a);
                    lemma_first_index_of(s0, d0[i]);
                }
            }
        }
    }
}

/// The expression for a single term is exactly `(X)`: no dangling
/// separator.
pub proof fn lemma_expression_single(x: Seq<char>)
    ensures
        expression(seq![x]) == "("@ + x + ")"@,
{
}

/// The expression for exactly two terms is `(X AND Y)`: one separator
/// between them, one pair of parentheses around them.
pub proof fn lemma_expression_pair(x: Seq<char>, y: Seq<char>)
    ensures
        expression(seq![x, y]) == "("@ + x + " AND "@ + y + ")"@,
{
    assert(joined_terms(seq![x]) == x);
    assert(seq![x, y].drop_last() =~= seq![x]);
    assert(joined_terms(seq![x, y]) == joined_terms(seq![x]) + " AND "@ + y);
    assert(expression(seq![x, y]) =~= "("@ + x + " AND "@ + y + ")"@);
}

/// One marker alone yields `(S AND D)` for its source license `S` and
/// documentation license `D` — even when the two values are equal: the two
/// categories are deduplicated independently, never against each other.
pub proof fn lemma_single_marker_expression(c: Seq<char>)
    ensures
        license_expr(seq![c]) == "("@ + value_of(c, "source_license"@) + " AND "@ + value_of(
            c,
            "documentation_license"@,
        ) + ")"@,
{
    let sv = value_of(c, "source_license"@);
    let dv = value_of(c, "documentation_license"@);
    assert(source_values(seq![c]) =~= seq![sv]);
    assert(doc_values(seq![c]) =~= seq![dv]);
    assert(seq![sv].drop_last() =~= Seq::<Seq<char>>::empty());
    assert(seq![dv].drop_last() =~= Seq::<Seq<char>>::empty());
    assert(dedup_first_seen(Seq::<Seq<char>>::empty()) =~= Seq::<Seq<char>>::empty());
    assert(!Seq::<Seq<char>>::empty().contains(sv));
    assert(!Seq::<Seq<char>>::empty().contains(dv));
    assert(dedup_first_seen(seq![sv]) =~= seq![sv]);
    assert(dedup_first_seen(seq![dv]) =~= seq![dv]);
    assert(license_terms(seq![c]) =~= seq![sv, dv]);
    lemma_expression_pair(sv, dv);
}

/// Running amalgamation twice over the same marker texts leaves the same
/// manifest bytes: the expression is recomputed identically, and writing
/// it a second time changes nothing.
pub proof fn lemma_amalgamate_idempotent(manifest: Seq<char>, cs: Seq<Seq<char>>, li: int)
    requires
        crate::text::no_cr(manifest),
        crate::text::no_nl(license_expr(cs)),
        crate::text::no_cr(license_expr(cs)),
        crate::kv::unique_match_at(manifest, "license"@, li),
        crate::kv::line_rewrites_cleanly(
            crate::text::lines_of(manifest)[li],
            "license"@,
            license_expr(cs),
        ),
    ensures
        updated(
            updated(manifest, "license"@, license_expr(cs)),
            "license"@,
            license_expr(cs),
        ) == updated(manifest, "license"@, license_expr(cs)),
{
    crate::kv::lemma_update_idempotent(manifest, "license"@, license_expr(cs), li);
}

/// Whether a String with these characters is in the vector.
fn vec_contains(v: &Vec<String>, x: &String) -> (r: bool)
    ensures
        r == v.deep_view().contains(x@),
{
    let mut i: usize = 0;
    while i < v.len()
        invariant
            i <= v.len(),
            forall|m: int| 0 <= m < i ==> v.deep_view()[m] != x@,
        decreases v.len() - i,
    {
        if crate::text::str_eq(v[i].as_str(), x.as_str()) {
            proof {
                assert(v.deep_view()[i as int] == x@);
            }
            return true;
        }
        i = i + 1;
    }
    false
}

/// The combined license expression for the marker texts, in walk order:
/// each marker's `source_license` and `documentation_license` values are
/// collected, the two lists are deduplicated in first-seen order, and the
/// result is `(S1 AND ... AND Sm AND D1 AND ... AND Dn)`.
pub fn license_expression(marker_contents: &Vec<String>) -> (r: String)
    ensures
        r@ == license_expr(marker_contents.deep_view()),
{
    let mut source_terms: Vec<String> = Vec::new();
    let mut doc_terms: Vec<String> = Vec::new();
    let mut i: usize = 0;
    proof {
        assert(marker_contents.deep_view().subrange(0, 0) =~= Seq::<Seq<char>>::empty());
        assert(source_values(Seq::empty()) =~= Seq::<Seq<char>>::empty());
        assert(doc_values(Seq::empty()) =~= Seq::<Seq<char>>::empty());
    }
    while i < marker_contents.len()
        invariant
            i <= marker_contents.len(),
            source_terms.deep_view() == dedup_first_seen(
                source_values(marker_contents.deep_view().subrange(0, i as int)),
            ),
            doc_terms.deep_view() == dedup_first_seen(
                doc_values(marker_contents.deep_view().subrange(0, i as int)),
            ),
        decreases marker_contents.len() - i,
    {
        let content: &String = &marker_contents[i];
        let ghost prefix = marker_contents.deep_view().subrange(0, i as int);
        let ghost next = marker_contents.deep_view().subrange(0, i + 1);
        proof {
            assert(next.drop_last() =~= prefix);
            assert(next.last() == marker_contents.deep_view()[i as int]);
            assert(source_values(next).drop_last() =~= source_values(prefix));
            assert(source_values(next).last() == value_of(content@, "source_license"@));
            assert(doc_values(next).drop_last() =~= doc_values(prefix));
            assert(doc_values(next).last() == value_of(content@, "documentation_license"@));
        }
        let source_value = get_value(content.as_str(), "source_license");
        let doc_value = get_value(content.as_str(), "documentation_license");
        let ghost st0 = source_terms.deep_view();
        if !vec_contains(&source_terms, &source_value) {
            source_terms.push(source_value);
            proof {
                assert(source_terms.deep_view() =~= st0.push(source_values(next).last()));
            }
        }
        let ghost dt0 = doc_terms.deep_view();
        if !vec_contains(&doc_terms, &doc_value) {
            doc_terms.push(doc_value);
            proof {
                assert(doc_terms.deep_view() =~= dt0.push(doc_values(next).last()));
            }
        }
        i = i + 1;
    }
    proof {
        assert(marker_contents.deep_view().subrange(
            0,
            marker_contents.deep_view().len() as int,
        ) =~= marker_contents.deep_view());
    }

    let mut terms: Vec<String> = source_terms;
    let mut j: usize = 0;
    let ghost t0 = terms.deep_view();
    proof {
        assert(terms.deep_view() =~= t0 + doc_terms.deep_view().subrange(0, 0));
    }
    while j < doc_terms.len()
        invariant
            j <= doc_terms.len(),
            terms.deep_view() == t0 + doc_terms.deep_view().subrange(0, j as int),
        decreases doc_terms.len() - j,
    {
        let ghost before = terms.deep_view();
        let next_term = doc_terms[j].clone();
        proof {
            assert(next_term@ == doc_terms.deep_view()[j as int]);
        }
        terms.push(next_term);
        proof {
            assert(terms.deep_view() =~= before.push(doc_terms.deep_view()[j as int]));
            assert(terms.deep_view() =~= t0 + doc_terms.deep_view().subrange(0, j + 1));
        }
        j = j + 1;
    }
    proof {
        assert(terms.deep_view() =~= t0 + doc_terms.deep_view());
    }

    let mut s = String::from_str("(");
    let mut m: usize = 0;
    proof {
        assert(joined_terms(terms.deep_view().subrange(0, 0)) =~= Seq::<char>::empty());
        assert(s@ =~= "("@ + joined_terms(terms.deep_view().subrange(0, 0)));
    }
    while m < terms.len()
        invariant
            m <= terms.len(),
            s@ == "("@ + joined_terms(terms.deep_view().subrange(0, m as int)),
        decreases terms.len() - m,
    {
        let ghost prefix = terms.deep_view().subrange(0, m as int);
        let ghost next = terms.deep_view().subrange(0, m + 1);
        proof {
            assert(next.drop_last() =~= prefix);
            assert(next.last() == terms.deep_view()[m as int]);
        }
        if m > 0 {
            s.append(" AND ");
        }
        s.append(terms[m].as_str());
        proof {
            if m == 0 {
                assert(next.len() == 1);
                assert(s@ =~= "("@ + joined_terms(next));
            } else {
                assert(s@ =~= "("@ + joined_terms(next));
            }
        }
        m = m + 1;
    }
    proof {
        assert(terms.deep_view().subrange(0, terms.deep_view().len() as int) =~= terms.deep_view());
    }
    s.append(")");
    proof {
        assert(s@ =~= license_expr(marker_contents.deep_view()));
    }
    s
}

/// Recomputes the license expression from the marker texts (in walk order)
/// and writes it into the manifest text's `license` line. Returns the
/// rewritten manifest text and whether a `license` line was found; when
/// none is, the text comes back unchanged.
pub fn amalgamate_licenses(marker_contents: &Vec<String>, manifest: &str) -> (r: (String, bool))
    ensures
        r.0@ == updated(manifest@, "license"@, license_expr(marker_contents.deep_view())),
        r.1 == has_key(manifest@, "license"@),
{
    let expr = license_expression(marker_contents);
    update_value(manifest, "license", expr.as_str())
}

/// One line of the license listing: the marker path and the two license
/// values its text carries.
pub open spec fn listing_entry(path: Seq<char>, c: Seq<char>, nl: Seq<char>) -> Seq<char> {
    "Path: "@ + path + ", Source License: "@ + value_of(c, "source_license"@)
        + ", Documentation License: "@ + value_of(c, "documentation_license"@) + nl
}

/// The listing lines for all markers, in walk order.
pub open spec fn listing_body(paths: Seq<Seq<char>>, cs: Seq<Seq<char>>, nl: Seq<char>) -> Seq<char>
    decreases paths.len(),
{
    if paths.len() == 0 {
        Seq::empty()
    } else {
        listing_body(paths.drop_last(), cs.drop_last(), nl) + listing_entry(
            paths.last(),
            cs.last(),
            nl,
        )
    }
}

/// The whole license listing: a header line, then one line per marker.
pub open spec fn license_listing(paths: Seq<Seq<char>>, cs: Seq<Seq<char>>, nl: Seq<char>) -> Seq<
    char,
> {
    "Licenses Specified In This Component:"@ + nl + listing_body(paths, cs, nl)
}

/// A human-readable listing of every license in the component tree: one
/// header line, then for each marker (in walk order) its path and the two
/// license values read from its text, one marker per line.
pub fn list_all_licenses(paths: &Vec<String>, contents: &Vec<String>) -> (r: String)
    requires
        paths@.len() == contents@.len(),
    ensures
        exists|nl: Seq<char>|
            is_newline(nl) && r@ == license_listing(paths.deep_view(), contents.deep_view(), nl),
{
    let nl = get_newline();
    let mut listing = String::from_str("Licenses Specified In This Component:");
    listing.append(nl.as_str());
    let mut i: usize = 0;
    proof {
        assert(paths.deep_view().subrange(0, 0) =~= Seq::<Seq<char>>::empty());
        assert(listing@ =~= "Licenses Specified In This Component:"@ + nl@ + listing_body(
            paths.deep_view().subrange(0, 0),
            contents.deep_view().subrange(0, 0),
            nl@,
        ));
    }
    while i < paths.len()
        invariant
            i <= paths.len(),
            paths.deep_view().len() == contents.deep_view().len(),
            listing@ == "Licenses Specified In This Component:"@ + nl@ + listing_body(
                paths.deep_view().subrange(0, i as int),
                contents.deep_view().subrange(0, i as int),
                nl@,
            ),
        decreases paths.len() - i,
    {
        let ghost ppre = paths.deep_view().subrange(0, i as int);
        let ghost cpre = contents.deep_view().subrange(0, i as int);
        let ghost pnext = paths.deep_view().subrange(0, i + 1);
        let ghost cnext = contents.deep_view().subrange(0, i + 1);
        proof {
            assert(pnext.drop_last() =~= ppre);
            assert(cnext.drop_last() =~= cpre);
            assert(pnext.last() == paths.deep_view()[i as int]);
            assert(cnext.last() == contents.deep_view()[i as int]);
        }
        let source_value = get_value(contents[i].as_str(), "source_license");
        let doc_value = get_value(contents[i].as_str(), "documentation_license");
        listing.append("Path: ");
        listing.append(paths[i].as_str());
        listing.append(", Source License: ");
        listing.append(source_value.as_str());
        listing.append(", Documentation License: ");
        listing.append(doc_value.as_str());
        listing.append(nl.as_str());
        proof {
            assert(listing@ =~= "Licenses Specified In This Component:"@ + nl@ + listing_body(
                pnext,
                cnext,
                nl@,
            ));
        }
        i = i + 1;
    }
    proof {
        assert(paths.deep_view().subrange(0, paths.deep_view().len() as int) =~= paths.deep_view());
        assert(contents.deep_view().subrange(0, contents.deep_view().len() as int)
            =~= contents.deep_view());
    }
    listing
}

/// The source and documentation licenses recorded in a component's marker
/// text; the defaults `Unlicense` and `CC0-1.0` when the component has no
/// marker file.
pub fn get_licenses(sr_contents: &Option<String>) -> (r: (String, String))
    ensures
        match sr_contents {
            Some(c) => r.0@ == value_of(c@, "source_license"@) && r.1@ == value_of(
                c@,
                "documentation_license"@,
            ),
            None => r.0@ == "Unlicense"@ && r.1@ == "CC0-1.0"@,
        },
{
    match sr_contents {
        Some(c) => {
            let source_license = get_value(c.as_str(), "source_license");
            let doc_license = get_value(c.as_str(), "documentation_license");
            (source_license, doc_license)
        },
        None => (String::from_str("Unlicense"), String::from_str("CC0-1.0")),
    }
}

} // verus!
