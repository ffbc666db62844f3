//! Canonical attribute ordering: a stable sort of a tag's attribute list
//! under a configurable priority list with a case-insensitive lexicographic
//! fallback.
//!
//! The sort is proved to be a permutation (it never adds, drops or renames
//! an attribute), stable (attributes tied under the configured order keep
//! their original relative order) and idempotent.

use vstd::prelude::*;
use crate::bytes::{
    lower, lex_lt, lemma_lex_antisym, lemma_lex_trans, lemma_lex_irrefl, lower_bytes, bytes_lex_lt,
    clone_bytes,
};
use crate::config::{Pattern, PatternM, Config, ConfigM, bytes_eq};
use crate::tokens::{Attribute, AttrM, attrs_view, Tag};

verus! {

/// Whether one priority pattern matches a lower-cased attribute name.
pub open spec fn pattern_matches(p: PatternM, name_lower: Seq<u8>) -> bool {
    if p.prefix {
        name_lower.len() >= p.text.len() && name_lower.subrange(0, p.text.len() as int) == p.text
    } else {
        name_lower == p.text
    }
}

/// Index of the first pattern at or after `i` matching `name_lower`, or
/// `pats.len()` when none matches.
pub open spec fn bucket_from(pats: Seq<PatternM>, name_lower: Seq<u8>, i: int) -> int
    decreases pats.len() - i when 0 <= i <= pats.len()
{
    if i >= pats.len() {
        i
    } else if pattern_matches(pats[i], name_lower) {
        i
    } else {
        bucket_from(pats, name_lower, i + 1)
    }
}

/// The priority bucket of an attribute: the index of the first matching
/// pattern, or the list length for unmatched attributes.
pub open spec fn bucket(cfg: ConfigM, a: AttrM) -> int {
    bucket_from(cfg.attribute_order, lower(a.name), 0)
}

/// Strict "comes before" under the canonical order: a lower priority bucket
/// comes first; among unmatched attributes, case-insensitive lexicographic
/// name order decides; everything else is tied.
pub open spec fn attr_lt(cfg: ConfigM, a: AttrM, b: AttrM) -> bool {
    let ba = bucket(cfg, a);
    let bb = bucket(cfg, b);
    if ba != bb {
        ba < bb
    } else if ba == cfg.attribute_order.len() {
        lex_lt(lower(a.name), lower(b.name))
    } else {
        false
    }
}

/// Two attributes tied under the canonical order; the sorter keeps tied
/// attributes in their original relative order.
pub open spec fn attr_tied(cfg: ConfigM, a: AttrM, b: AttrM) -> bool {
    !attr_lt(cfg, a, b) && !attr_lt(cfg, b, a)
}

proof fn lemma_attr_lt_irrefl(cfg: ConfigM, a: AttrM)
    ensures
        !attr_lt(cfg, a, a),
{
    lemma_lex_irrefl(lower(a.name));
}

proof fn lemma_attr_lt_trans(cfg: ConfigM, a: AttrM, b: AttrM, c: AttrM)
    requires
        attr_lt(cfg, a, b),
        attr_lt(cfg, b, c),
    ensures
        attr_lt(cfg, a, c),
{
    if bucket(cfg, a) == bucket(cfg, b) && bucket(cfg, b) == bucket(cfg, c) {
        lemma_lex_trans(lower(a.name), lower(b.name), lower(c.name));
    }
}

/// From `a < b` and `not (c < b)` conclude `a < c`.
proof fn lemma_attr_lt_cross(cfg: ConfigM, a: AttrM, b: AttrM, c: AttrM)
    requires
        attr_lt(cfg, a, b),
        !attr_lt(cfg, c, b),
    ensures
        attr_lt(cfg, a, c),
{
    if bucket(cfg, a) == bucket(cfg, b) && bucket(cfg, b) == bucket(cfg, c) {
        if !lex_lt(lower(a.name), lower(c.name))
            && !lex_lt(lower(c.name), lower(a.name)) {
            lemma_lex_antisym(lower(a.name), lower(c.name));
        }
        if lex_lt(lower(c.name), lower(a.name)) {
            lemma_lex_trans(lower(c.name), lower(a.name), lower(b.name));
        }
    }
}

/// Tiedness is transitive: the canonical order is a total preorder.
pub proof fn lemma_attr_tied_trans(cfg: ConfigM, a: AttrM, b: AttrM, c: AttrM)
    requires
        attr_tied(cfg, a, b),
        attr_tied(cfg, b, c),
    ensures
        attr_tied(cfg, a, c),
{
    if attr_lt(cfg, a, c) {
        lemma_attr_lt_cross(cfg, a, c, b);
    }
    if attr_lt(cfg, c, a) {
        lemma_attr_lt_cross(cfg, c, a, b);
    }
}

/// An attribute list in canonical order: no later element comes strictly
/// before an earlier one.
pub open spec fn attrs_sorted(cfg: ConfigM, s: Seq<AttrM>) -> bool {
    forall|i: int, j: int|
        0 <= i < j < s.len() ==> !attr_lt(cfg, #[trigger] s[j], #[trigger] s[i])
}

/// Insert `a` into an already ordered list, after every element it does not
/// strictly precede (so ties keep the incoming element last).
pub open spec fn insert_sorted(cfg: ConfigM, s: Seq<AttrM>, a: AttrM) -> Seq<AttrM>
    decreases s.len(),
{
    if s.len() == 0 {
        seq![a]
    } else if attr_lt(cfg, a, s[0]) {
        seq![a] + s
    } else {
        seq![s[0]] + insert_sorted(cfg, s.drop_first(), a)
    }
}

/// The canonical order of an attribute list: a stable insertion sort.
pub open spec fn sort_spec(cfg: ConfigM, s: Seq<AttrM>) -> Seq<AttrM>
    decreases s.len(),
{
    if s.len() == 0 {
        Seq::<AttrM>::empty()
    } else {
        insert_sorted(cfg, sort_spec(cfg, s.drop_last()), s.last())
    }
}

proof fn lemma_insert_sorted_multiset(cfg: ConfigM, s: Seq<AttrM>, a: AttrM)
    ensures
        insert_sorted(cfg, s, a).to_multiset() == s.to_multiset().insert(a),
        insert_sorted(cfg, s, a).len() == s.len() + 1,
    decreases s.len(),
{
    broadcast use vstd::seq_lib::group_to_multiset_ensures;

    if s.len() == 0 {
        assert(seq![a] =~= Seq::<AttrM>::empty().push(a));
        assert(s =~= Seq::<AttrM>::empty());
    } else if attr_lt(cfg, a, s[0]) {
        assert(seq![a] + s =~= (seq![a] + s.drop_last()).push(s.last()));
        lemma_prepend_multiset(s, a);
    } else {
        lemma_insert_sorted_multiset(cfg, s.drop_first(), a);
        let t = insert_sorted(cfg, s.drop_first(), a);
        lemma_prepend_multiset(t, s[0]);
        lemma_prepend_multiset(s.drop_first(), s[0]);
        assert(seq![s[0]] + s.drop_first() =~= s);
        assert(t.to_multiset().insert(s[0]) =~= s.drop_first().to_multiset().insert(
            a,
        ).insert(s[0]));
        assert(s.drop_first().to_multiset().insert(a).insert(s[0])
            =~= s.drop_first().to_multiset().insert(s[0]).insert(a));
    }
}

proof fn lemma_prepend_multiset(s: Seq<AttrM>, a: AttrM)
    ensures
        (seq![a] + s).to_multiset() == s.to_multiset().insert(a),
    decreases s.len(),
{
    broadcast use vstd::seq_lib::group_to_multiset_ensures;

    if s.len() == 0 {
        assert(seq![a] + s =~= Seq::<AttrM>::empty().push(a));
    } else {
        lemma_prepend_multiset(s.drop_last(), a);
        assert(seq![a] + s =~= (seq![a] + s.drop_last()).push(s.last()));
        assert(s =~= s.drop_last().push(s.last()));
        assert((seq![a] + s.drop_last()).push(s.last()).to_multiset()
            =~= s.drop_last().push(s.last()).to_multiset().insert(a));
    }
}

/// Every element of the inserted list is the new element or one of the old
/// ones.
proof fn lemma_insert_sorted_membership(cfg: ConfigM, s: Seq<AttrM>, a: AttrM, k: int)
    requires
        0 <= k < insert_sorted(cfg, s, a).len(),
    ensures
        insert_sorted(cfg, s, a)[k] == a || s.contains(insert_sorted(cfg, s, a)[k]),
    decreases s.len(),
{
    lemma_insert_sorted_multiset(cfg, s, a);
    if s.len() == 0 {
    } else if attr_lt(cfg, a, s[0]) {
    } else {
        if k > 0 {
            lemma_insert_sorted_membership(cfg, s.drop_first(), a, k - 1);
            let x = insert_sorted(cfg, s, a)[k];
            if s.drop_first().contains(x) {
                let j = choose|j: int|
                    0 <= j < s.drop_first().len() && s.drop_first()[j] == x;
                assert(s[j + 1] == x);
            }
        }
    }
}

proof fn lemma_insert_sorted_ordered(cfg: ConfigM, s: Seq<AttrM>, a: AttrM)
    requires
        attrs_sorted(cfg, s),
    ensures
        attrs_sorted(cfg, insert_sorted(cfg, s, a)),
    decreases s.len(),
{
    let t = insert_sorted(cfg, s, a);
    if s.len() == 0 {
    } else if attr_lt(cfg, a, s[0]) {
        assert forall|i: int, j: int| 0 <= i < j < t.len() implies !attr_lt(
            cfg,
            t[j],
            t[i],
        ) by {
            if i == 0 {
                if attr_lt(cfg, t[j], a) {
                    lemma_attr_lt_trans(cfg, t[j], a, s[0]);
                    if j > 1 {
                        assert(t[j] == s[j - 1]);
                        assert(!attr_lt(cfg, s[j - 1], s[0]));
                    } else {
                        lemma_attr_lt_irrefl(cfg, s[0]);
                    }
                }
            }
        }
    } else {
        assert(attrs_sorted(cfg, s.drop_first())) by {
            assert forall|i: int, j: int|
                0 <= i < j < s.drop_first().len() implies !attr_lt(
                cfg,
                #[trigger] s.drop_first()[j],
                #[trigger] s.drop_first()[i],
            ) by {
                assert(s.drop_first()[j] == s[j + 1]);
                assert(s.drop_first()[i] == s[i + 1]);
            }
        }
        lemma_insert_sorted_ordered(cfg, s.drop_first(), a);
        let t2 = insert_sorted(cfg, s.drop_first(), a);
        assert forall|i: int, j: int| 0 <= i < j < t.len() implies !attr_lt(
            cfg,
            t[j],
            t[i],
        ) by {
            if i == 0 {
                assert(t[0] == s[0]);
                assert(t[j] == t2[j - 1]);
                lemma_insert_sorted_membership(cfg, s.drop_first(), a, j - 1);
                if t2[j - 1] == a {
                    assert(!attr_lt(cfg, a, s[0]));
                } else {
                    let m = choose|m: int|
                        0 <= m < s.drop_first().len() && s.drop_first()[m] == t2[j - 1];
                    assert(s[m + 1] == t2[j - 1]);
                    assert(!attr_lt(cfg, s[m + 1], s[0]));
                }
            } else {
                assert(t[j] == t2[j - 1]);
                assert(t[i] == t2[i - 1]);
            }
        }
    }
}

/// Inserting after all ties: the filtered subsequence of elements tied with
/// any pivot gains the new element at its end (or is unchanged).
proof fn lemma_insert_sorted_filter(cfg: ConfigM, s: Seq<AttrM>, a: AttrM, pivot: AttrM)
    requires
        attrs_sorted(cfg, s),
    ensures
        insert_sorted(cfg, s, a).filter(|x: AttrM| attr_tied(cfg, x, pivot)) == if attr_tied(
            cfg,
            a,
            pivot,
        ) {
            s.filter(|x: AttrM| attr_tied(cfg, x, pivot)).push(a)
        } else {
            s.filter(|x: AttrM| attr_tied(cfg, x, pivot))
        },
    decreases s.len(),
{
    broadcast use vstd::seq_lib::group_seq_properties;

    let pred = |x: AttrM| attr_tied(cfg, x, pivot);
    let t = insert_sorted(cfg, s, a);
    if s.len() == 0 {
        assert(seq![a] =~= Seq::<AttrM>::empty().push(a));
        Seq::<AttrM>::empty().lemma_filter_push(a, pred);
        assert(Seq::<AttrM>::empty().filter(pred).len() == 0) by {
            Seq::<AttrM>::empty().lemma_all_neg_filter_empty(pred);
        }
        assert(s.filter(pred) =~= Seq::<AttrM>::empty().filter(pred));
        if pred(a) {
            assert(t.filter(pred) =~= s.filter(pred).push(a));
        } else {
            assert(t.filter(pred) =~= s.filter(pred));
        }
    } else if attr_lt(cfg, a, s[0]) {
        s.lemma_filter_prepend(a, pred);
        if attr_tied(cfg, a, pivot) {
            // every element of s comes strictly after a, so none is tied
            // with the pivot
            assert forall|i: int| 0 <= i < s.len() implies !pred(s[i]) by {
                lemma_attr_lt_irrefl(cfg, s[0]);
                assert(!attr_lt(cfg, s[i], s[0]));
                lemma_attr_lt_cross(cfg, a, s[0], s[i]);
                if attr_tied(cfg, s[i], pivot) {
                    lemma_attr_tied_trans(cfg, a, pivot, s[i]);
                }
            }
            s.lemma_all_neg_filter_empty(pred);
            assert(s.filter(pred) =~= Seq::<AttrM>::empty());
            assert(t.filter(pred) =~= s.filter(pred).push(a));
        } else {
            assert(t.filter(pred) =~= s.filter(pred));
        }
    } else {
        assert(attrs_sorted(cfg, s.drop_first())) by {
            assert forall|i: int, j: int|
                0 <= i < j < s.drop_first().len() implies !attr_lt(
                cfg,
                #[trigger] s.drop_first()[j],
                #[trigger] s.drop_first()[i],
            ) by {
                assert(s.drop_first()[j] == s[j + 1]);
                assert(s.drop_first()[i] == s[i + 1]);
            }
        }
        lemma_insert_sorted_filter(cfg, s.drop_first(), a, pivot);
        let t2 = insert_sorted(cfg, s.drop_first(), a);
        t2.lemma_filter_prepend(s[0], pred);
        assert(t =~= seq![s[0]] + t2);
        s.drop_first().lemma_filter_prepend(s[0], pred);
        assert(s =~= seq![s[0]] + s.drop_first());
        if attr_tied(cfg, a, pivot) {
            let head = if pred(s[0]) {
                seq![s[0]]
            } else {
                Seq::<AttrM>::empty()
            };
            assert(t.filter(pred) =~= head + s.drop_first().filter(pred).push(a));
            assert(head + s.drop_first().filter(pred).push(a) =~= (head + s.drop_first().filter(
                pred,
            )).push(a));
            assert(s.filter(pred) =~= head + s.drop_first().filter(pred));
        }
    }
}

/// The canonical order of an attribute list is in canonical order.
pub proof fn lemma_sort_ordered(cfg: ConfigM, s: Seq<AttrM>)
    ensures
        attrs_sorted(cfg, sort_spec(cfg, s)),
    decreases s.len(),
{
    if s.len() > 0 {
        lemma_sort_ordered(cfg, s.drop_last());
        lemma_insert_sorted_ordered(cfg, sort_spec(cfg, s.drop_last()), s.last());
    }
}

/// Sorting never changes the multiset of attributes: nothing is added,
/// dropped or renamed, duplicates included.
pub proof fn lemma_sort_multiset(cfg: ConfigM, s: Seq<AttrM>)
    ensures
        sort_spec(cfg, s).to_multiset() == s.to_multiset(),
        sort_spec(cfg, s).len() == s.len(),
    decreases s.len(),
{
    broadcast use vstd::seq_lib::group_to_multiset_ensures;

    if s.len() == 0 {
        assert(s =~= Seq::<AttrM>::empty());
    } else {
        lemma_sort_multiset(cfg, s.drop_last());
        lemma_insert_sorted_multiset(cfg, sort_spec(cfg, s.drop_last()), s.last());
        assert(s =~= s.drop_last().push(s.last()));
        assert(s.drop_last().push(s.last()).to_multiset() =~= s.drop_last().to_multiset().insert(
            s.last(),
        ));
    }
}

/// Sorting is stable: for any pivot, the subsequence of attributes tied with
/// it under the canonical order is exactly the same, in the same order, as in
/// the input.
pub proof fn lemma_sort_stable(cfg: ConfigM, s: Seq<AttrM>, pivot: AttrM)
    ensures
        sort_spec(cfg, s).filter(|x: AttrM| attr_tied(cfg, x, pivot)) == s.filter(
            |x: AttrM| attr_tied(cfg, x, pivot),
        ),
    decreases s.len(),
{
    let pred = |x: AttrM| attr_tied(cfg, x, pivot);
    if s.len() == 0 {
        assert(sort_spec(cfg, s) =~= s);
    } else {
        lemma_sort_stable(cfg, s.drop_last(), pivot);
        lemma_sort_ordered(cfg, s.drop_last());
        lemma_insert_sorted_filter(cfg, sort_spec(cfg, s.drop_last()), s.last(), pivot);
        assert(s =~= s.drop_last().push(s.last()));
        s.drop_last().lemma_filter_push(s.last(), pred);
    }
}

proof fn lemma_insert_sorted_at_end(cfg: ConfigM, s: Seq<AttrM>, a: AttrM)
    requires
        forall|i: int| 0 <= i < s.len() ==> !attr_lt(cfg, a, #[trigger] s[i]),
    ensures
        insert_sorted(cfg, s, a) == s.push(a),
    decreases s.len(),
{
    if s.len() == 0 {
        assert(insert_sorted(cfg, s, a) =~= s.push(a));
    } else {
        assert(!attr_lt(cfg, a, s[0]));
        assert forall|i: int| 0 <= i < s.drop_first().len() implies !attr_lt(
            cfg,
            a,
            #[trigger] s.drop_first()[i],
        ) by {
            assert(s.drop_first()[i] == s[i + 1]);
        }
        lemma_insert_sorted_at_end(cfg, s.drop_first(), a);
        assert(seq![s[0]] + s.drop_first().push(a) =~= s.push(a));
    }
}

/// An already canonically ordered list sorts to itself.
pub proof fn lemma_sort_of_sorted(cfg: ConfigM, s: Seq<AttrM>)
    requires
        attrs_sorted(cfg, s),
    ensures
        sort_spec(cfg, s) == s,
    decreases s.len(),
{
    if s.len() > 0 {
        assert(attrs_sorted(cfg, s.drop_last())) by {
            assert forall|i: int, j: int|
                0 <= i < j < s.drop_last().len() implies !attr_lt(
                cfg,
                #[trigger] s.drop_last()[j],
                #[trigger] s.drop_last()[i],
            ) by {
                assert(s.drop_last()[j] == s[j]);
                assert(s.drop_last()[i] == s[i]);
            }
        }
        lemma_sort_of_sorted(cfg, s.drop_last());
        assert forall|i: int| 0 <= i < s.drop_last().len() implies !attr_lt(
            cfg,
            s.last(),
            #[trigger] s.drop_last()[i],
        ) by {
            assert(s.drop_last()[i] == s[i]);
            assert(!attr_lt(cfg, s[s.len() - 1], s[i]));
        }
        lemma_insert_sorted_at_end(cfg, s.drop_last(), s.last());
        assert(s.drop_last().push(s.last()) =~= s);
    }
}

/// Sorting is idempotent: sorting an already sorted list changes nothing.
pub proof fn lemma_sort_idempotent(cfg: ConfigM, s: Seq<AttrM>)
    ensures
        sort_spec(cfg, sort_spec(cfg, s)) == sort_spec(cfg, s),
{
    lemma_sort_ordered(cfg, s);
    lemma_sort_of_sorted(cfg, sort_spec(cfg, s));
}

/// Where `insert_sorted` lands: at the first position whose element the new
/// one strictly precedes.
proof fn lemma_insert_sorted_at(cfg: ConfigM, s: Seq<AttrM>, a: AttrM, j: int)
    requires
        0 <= j <= s.len(),
        forall|q: int| 0 <= q < j ==> !attr_lt(cfg, a, #[trigger] s[q]),
        j < s.len() ==> attr_lt(cfg, a, s[j]),
    ensures
        insert_sorted(cfg, s, a) == s.insert(j, a),
    decreases s.len(),
{
    if s.len() == 0 {
        assert(insert_sorted(cfg, s, a) =~= s.insert(0, a));
    } else if attr_lt(cfg, a, s[0]) {
        assert(j == 0);
        assert(seq![a] + s =~= s.insert(0, a));
    } else {
        assert(j >= 1);
        assert forall|q: int| 0 <= q < j - 1 implies !attr_lt(
            cfg,
            a,
            #[trigger] s.drop_first()[q],
        ) by {
            assert(s.drop_first()[q] == s[q + 1]);
        }
        assert(j - 1 < s.drop_first().len() ==> attr_lt(cfg, a, s.drop_first()[j - 1]));
        lemma_insert_sorted_at(cfg, s.drop_first(), a, j - 1);
        assert(seq![s[0]] + s.drop_first().insert(j - 1, a) =~= s.insert(j, a));
    }
}

/// Decide whether the first pattern argument matches a lower-cased name.
pub fn pattern_match(p: &Pattern, name_lower: &Vec<u8>) -> (r: bool)
    ensures
        r == pattern_matches(p@, name_lower@),
{
    if p.prefix {
        if name_lower.len() < p.text.len() {
            return false;
        }
        let mut i: usize = 0;
        while i < p.text.len()
            invariant
                i <= p.text.len(),
                p.text.len() <= name_lower.len(),
                forall|q: int| 0 <= q < i ==> name_lower@[q] == p.text@[q],
            decreases p.text.len() - i,
        {
            if name_lower[i] != p.text[i] {
                proof {
                    assert(name_lower@.subrange(0, p.text@.len() as int)[i as int]
                        != p.text@[i as int]);
                }
                return false;
            }
            i = i + 1;
        }
        proof {
            assert(name_lower@.subrange(0, p.text@.len() as int) =~= p.text@);
        }
        true
    } else {
        bytes_eq(name_lower, &p.text)
    }
}

/// The priority bucket of a lower-cased attribute name.
pub fn attr_bucket(cfg: &Config, name_lower: &Vec<u8>) -> (r: usize)
    ensures
        r as int == bucket_from(cfg@.attribute_order, name_lower@, 0),
{
    let ghost pats = cfg@.attribute_order;
    let mut i: usize = 0;
    while i < cfg.attribute_order.len()
        invariant
            i <= cfg.attribute_order.len(),
            pats == cfg@.attribute_order,
            pats.len() == cfg.attribute_order.len(),
            bucket_from(pats, name_lower@, 0) == bucket_from(pats, name_lower@, i as int),
        decreases cfg.attribute_order.len() - i,
    {
        if pattern_match(&cfg.attribute_order[i], name_lower) {
            proof {
                assert(bucket_from(pats, name_lower@, i as int) == i as int);
            }
            return i;
        }
        i = i + 1;
    }
    i
}

/// Decide the canonical strict order between two attributes.
pub fn attr_lt_exec(cfg: &Config, a: &Attribute, b: &Attribute) -> (r: bool)
    ensures
        r == attr_lt(cfg@, a@, b@),
{
    let la = lower_bytes(&a.name);
    let lb = lower_bytes(&b.name);
    let ba = attr_bucket(cfg, &la);
    let bb = attr_bucket(cfg, &lb);
    if ba != bb {
        ba < bb
    } else if ba == cfg.attribute_order.len() {
        bytes_lex_lt(&la, &lb)
    } else {
        false
    }
}

fn find_insert_pos(cfg: &Config, out: &Vec<Attribute>, a: &Attribute) -> (j: usize)
    ensures
        j <= out.len(),
        forall|q: int| 0 <= q < j ==> !attr_lt(cfg@, a@, #[trigger] attrs_view(out@)[q]),
        j < out.len() ==> attr_lt(cfg@, a@, attrs_view(out@)[j as int]),
{
    let mut j: usize = 0;
    while j < out.len()
        invariant
            j <= out.len(),
            forall|q: int| 0 <= q < j ==> !attr_lt(cfg@, a@, #[trigger] attrs_view(out@)[q]),
        decreases out.len() - j,
    {
        if attr_lt_exec(cfg, a, &out[j]) {
            return j;
        }
        j = j + 1;
    }
    j
}

/// Reorder an attribute list into canonical order under the configuration.
/// A pure reordering: the multiset of attributes is unchanged, tied
/// attributes keep their original relative order, and sorting twice gives
/// the same list as sorting once (see the public lemmas on `sort_spec`).
pub fn sort_attrs(cfg: &Config, attrs: &Vec<Attribute>) -> (r: Vec<Attribute>)
    ensures
        attrs_view(r@) == sort_spec(cfg@, attrs_view(attrs@)),
{
    let mut out: Vec<Attribute> = Vec::new();
    let mut i: usize = 0;
    proof {
        assert(attrs_view(out@) =~= Seq::<AttrM>::empty());
        assert(attrs_view(attrs@.take(0)) =~= Seq::<AttrM>::empty());
    }
    while i < attrs.len()
        invariant
            i <= attrs.len(),
            attrs_view(out@) == sort_spec(cfg@, attrs_view(attrs@.take(i as int))),
        decreases attrs.len() - i,
    {
        let a = crate::tokens::clone_attr(&attrs[i]);
        let ghost ga = a@;
        let ghost om = attrs_view(out@);
        proof {
            lemma_sort_ordered(cfg@, attrs_view(attrs@.take(i as int)));
        }
        let j = find_insert_pos(cfg, &out, &a);
        out.insert(j, a);
        proof {
            lemma_insert_sorted_at(cfg@, om, ga, j as int);
            assert(attrs_view(out@) =~= om.insert(j as int, ga));
            let prev = attrs_view(attrs@.take(i as int));
            let next = attrs_view(attrs@.take(i + 1));
            assert(next.drop_last() =~= prev);
            assert(next.last() == ga);
            assert(attrs_view(out@) == insert_sorted(cfg@, sort_spec(cfg@, prev), ga));
            assert(sort_spec(cfg@, next) == insert_sorted(
                cfg@,
                sort_spec(cfg@, next.drop_last()),
                next.last(),
            ));
        }
        i = i + 1;
    }
    proof {
        assert(attrs@.take(attrs@.len() as int) =~= attrs@);
    }
    out
}

/// Reorder a tag's attributes into canonical order; the tag's name, flags
/// and span are untouched and no attribute is added, dropped or renamed.
pub fn sort_tag_attrs(cfg: &Config, tag: &Tag) -> (r: Tag)
    ensures
        r@.name == tag@.name,
        r@.self_closing == tag@.self_closing,
        r@.raw_text == tag@.raw_text,
        r@.span == tag@.span,
        r@.attrs == sort_spec(cfg@, tag@.attrs),
{
    Tag {
        name: clone_bytes(&tag.name),
        attrs: sort_attrs(cfg, &tag.attrs),
        self_closing: tag.self_closing,
        raw_text: tag.raw_text,
        span: tag.span,
    }
}

} // verus!
