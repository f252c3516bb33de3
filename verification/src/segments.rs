//! Selection and canonical ordering of an object's data segments.
//!
//! The data segments of an object are the container entries whose name
//! begins with the object's name followed by `/data`, leaving out the
//! paired chunk-index entries, whose names end with `index`. Their
//! lexicographic name order is the order of the decoded stream.

use vstd::multiset::Multiset;
use vstd::prelude::*;
use vstd::relations::{sorted_by, total_ordering};
use vstd::string::StringExecFns;

use crate::order::{lemma_lex_total_ordering, lex_leq, str_ends_with, str_lex_le, str_starts_with};

verus! {

/// The views of a sequence of names.
pub open spec fn views_of(names: Seq<String>) -> Seq<Seq<char>> {
    names.map_values(|s: String| s@)
}

/// The entry-name prefix under which an object's data segments live.
pub open spec fn data_prefix(object: Seq<char>) -> Seq<char> {
    object + "/data"@
}

/// Whether a name is a chunk-index entry name.
pub open spec fn is_index_name(name: Seq<char>) -> bool {
    name.len() >= "index"@.len() && name.subrange(name.len() - "index"@.len(), name.len() as int) == "index"@
}

/// Whether an entry name denotes a data segment of the given object.
pub open spec fn matches_object(object: Seq<char>, name: Seq<char>) -> bool {
    &&& name.len() >= data_prefix(object).len()
    &&& name.subrange(0, data_prefix(object).len() as int) == data_prefix(object)
    &&& !is_index_name(name)
}

/// The segment predicate as a value, for use with `Seq::filter`.
pub open spec fn object_pred(object: Seq<char>) -> spec_fn(Seq<char>) -> bool {
    |n: Seq<char>| matches_object(object, n)
}

/// Decides whether one entry name denotes a data segment of `object`.
pub fn name_matches(name: &str, object: &str) -> (r: bool)
    ensures
        r == matches_object(object@, name@),
{
    let prefix: String = name_with_suffix(object, "/data");
    let starts = str_starts_with(name, prefix.as_str());
    let ends = str_ends_with(name, "index");
    starts && !ends
}

/// Joins a name and a suffix into one string.
pub fn name_with_suffix(name: &str, suffix: &str) -> (r: String)
    ensures
        r@ == name@ + suffix@,
{
    let mut r: String = name.to_owned();
    r.append(suffix);
    r
}

/// Keeps, in their given order, the names that denote data segments of
/// `object`.
pub fn select_segments(names: &Vec<String>, object: &str) -> (r: Vec<String>)
    ensures
        views_of(r@) == views_of(names@).filter(object_pred(object@)),
{
    let mut out: Vec<String> = Vec::new();
    proof {
        reveal(Seq::filter);
        assert(views_of(names@.take(0)).len() == 0);
        assert(views_of(out@) =~= views_of(names@.take(0)).filter(object_pred(object@)));
    }
    let mut i: usize = 0;
    while i < names.len()
        invariant
            i <= names@.len(),
            views_of(out@) == views_of(names@.take(i as int)).filter(object_pred(object@)),
        decreases names@.len() - i,
    {
        let ghost pred = object_pred(object@);
        let ghost vs = views_of(names@.take(i + 1));
        proof {
            reveal(Seq::filter);
            assert(vs.len() == i + 1);
            assert(vs.drop_last() =~= views_of(names@.take(i as int)));
            assert(vs.last() == names@[i as int]@);
            assert(vs.filter(pred) == if pred(vs.last()) {
                vs.drop_last().filter(pred).push(vs.last())
            } else {
                vs.drop_last().filter(pred)
            });
        }
        let matched = name_matches(names[i].as_str(), object);
        if matched {
            let ghost before = out@;
            out.push(names[i].clone());
            proof {
                assert(views_of(out@) =~= views_of(before).push(names@[i as int]@));
            }
        }
        i = i + 1;
    }
    proof {
        assert(names@.take(names@.len() as int) =~= names@);
    }
    out
}

/// Sorts names into lexicographic order, keeping every occurrence.
pub fn sort_names(v: &mut Vec<String>)
    ensures
        sorted_by(views_of(final(v)@), lex_leq()),
        views_of(final(v)@).to_multiset() == views_of(old(v)@).to_multiset(),
{
    proof {
        lemma_lex_total_ordering();
    }
    let ghost orig: Seq<String> = v@;
    let mut out: Vec<String> = Vec::new();
    proof {
        broadcast use vstd::seq_lib::group_to_multiset_ensures;

        assert(views_of(out@).len() == 0);
        assert(views_of(out@).to_multiset().add(views_of(v@).to_multiset()) =~= views_of(orig).to_multiset());
    }
    while v.len() > 0
        invariant
            total_ordering(lex_leq()),
            sorted_by(views_of(out@), lex_leq()),
            forall|a: int, b: int| 0 <= a < out@.len() && 0 <= b < v@.len() ==> #[trigger] lex_leq()(
                views_of(out@)[a],
                views_of(v@)[b],
            ),
            views_of(out@).to_multiset().add(views_of(v@).to_multiset()) == views_of(orig).to_multiset(),
        decreases v@.len(),
    {
        let mut min_idx: usize = 0;
        let mut idx: usize = 1;
        proof {
            assert(lex_leq()(v@[0]@, v@[0]@));
        }
        while idx < v.len()
            invariant
                v@.len() > 0,
                min_idx < idx,
                idx <= v@.len(),
                total_ordering(lex_leq()),
                forall|t: int| 0 <= t < idx ==> #[trigger] lex_leq()(v@[min_idx as int]@, v@[t]@),
            decreases v@.len() - idx,
        {
            if !str_lex_le(v[min_idx].as_str(), v[idx].as_str()) {
                proof {
                    assert(lex_leq()(v@[idx as int]@, v@[min_idx as int]@)) by {
                        assert(lex_leq()(v@[min_idx as int]@, v@[idx as int]@) || lex_leq()(
                            v@[idx as int]@,
                            v@[min_idx as int]@,
                        ));
                    }
                    assert forall|t: int| 0 <= t < idx + 1 implies #[trigger] lex_leq()(
                        v@[idx as int]@,
                        v@[t]@,
                    ) by {
                        if t < idx {
                            assert(lex_leq()(v@[min_idx as int]@, v@[t]@));
                        } else {
                            assert(lex_leq()(v@[idx as int]@, v@[idx as int]@));
                        }
                    }
                }
                min_idx = idx;
            }
            idx = idx + 1;
        }
        let ghost v_before = v@;
        let ghost out_before = out@;
        let chosen = v.remove(min_idx);
        out.push(chosen);
        proof {
            broadcast use vstd::seq_lib::group_to_multiset_ensures;

            let m = chosen@;
            assert(views_of(out@) =~= views_of(out_before).push(m));
            assert(views_of(v@) =~= views_of(v_before).remove(min_idx as int));
            assert(views_of(v_before)[min_idx as int] == m);
            assert(views_of(v@).to_multiset() =~= views_of(v_before).to_multiset().remove(m));
            assert(views_of(out@).to_multiset() =~= views_of(out_before).to_multiset().insert(m));
            assert(views_of(v_before).to_multiset().contains(m)) by {
                assert(views_of(v_before).contains(m));
            }
            assert(views_of(out@).to_multiset().add(views_of(v@).to_multiset()) =~= views_of(orig).to_multiset());
            assert forall|a: int, b: int|
                0 <= a < out@.len() && 0 <= b < v@.len() implies #[trigger] lex_leq()(
                views_of(out@)[a],
                views_of(v@)[b],
            ) by {
                let t = if b < min_idx {
                    b
                } else {
                    b + 1
                };
                assert(views_of(v@)[b] == views_of(v_before)[t]);
                assert(lex_leq()(m, views_of(v_before)[t]));
                if a < out_before.len() {
                    assert(lex_leq()(views_of(out_before)[a], m));
                }
            }
            assert forall|a: int, b: int| 0 <= a < b < out@.len() implies #[trigger] lex_leq()(
                views_of(out@)[a],
                views_of(out@)[b],
            ) by {
                if b < out_before.len() {
                    assert(lex_leq()(views_of(out_before)[a], views_of(out_before)[b]));
                } else {
                    assert(lex_leq()(views_of(out_before)[a], m));
                }
            }
        }
    }
    proof {
        broadcast use vstd::seq_lib::group_to_multiset_ensures;

        assert(views_of(v@).len() == 0);
        assert(views_of(out@).to_multiset().add(views_of(v@).to_multiset()) =~= views_of(out@).to_multiset());
        assert(views_of(out@).to_multiset() =~= views_of(orig).to_multiset());
    }
    *v = out;
}

/// Two name lists in canonical order that hold the same names, with
/// the same repetitions, are one and the same list: the canonical
/// segment order does not depend on the order the container happened
/// to enumerate its entries in.
pub proof fn lemma_canonical_order_unique(a: Seq<Seq<char>>, b: Seq<Seq<char>>)
    requires
        sorted_by(a, lex_leq()),
        sorted_by(b, lex_leq()),
        a.to_multiset() == b.to_multiset(),
    ensures
        a == b,
    decreases a.len(),
{
    broadcast use vstd::seq_lib::group_to_multiset_ensures;

    lemma_lex_total_ordering();
    assert(a.len() == a.to_multiset().len());
    assert(b.len() == b.to_multiset().len());
    if a.len() == 0 {
        assert(a =~= b);
    } else {
        let x = a.last();
        let y = b.last();
        assert(b.to_multiset().contains(x)) by {
            assert(a.contains(x));
        }
        assert(a.to_multiset().contains(y)) by {
            assert(b.contains(y));
        }
        assert(b.contains(x));
        assert(a.contains(y));
        let i = choose|i: int| 0 <= i < b.len() && b[i] == x;
        let j = choose|j: int| 0 <= j < a.len() && a[j] == y;
        assert(lex_leq()(x, y)) by {
            if i < b.len() - 1 {
                assert(lex_leq()(b[i], b[b.len() - 1]));
            } else {
                assert(lex_leq()(y, y));
            }
        }
        assert(lex_leq()(y, x)) by {
            if j < a.len() - 1 {
                assert(lex_leq()(a[j], a[a.len() - 1]));
            } else {
                assert(lex_leq()(x, x));
            }
        }
        assert(x == y);
        assert(a.drop_last() =~= a.remove(a.len() - 1));
        assert(b.drop_last() =~= b.remove(b.len() - 1));
        assert(a.drop_last().to_multiset() =~= a.to_multiset().remove(x));
        assert(b.drop_last().to_multiset() =~= b.to_multiset().remove(y));
        assert(sorted_by(a.drop_last(), lex_leq())) by {
            assert forall|s: int, t: int| 0 <= s < t < a.drop_last().len() implies #[trigger] lex_leq()(
                a.drop_last()[s],
                a.drop_last()[t],
            ) by {
                assert(lex_leq()(a[s], a[t]));
            }
        }
        assert(sorted_by(b.drop_last(), lex_leq())) by {
            assert forall|s: int, t: int| 0 <= s < t < b.drop_last().len() implies #[trigger] lex_leq()(
                b.drop_last()[s],
                b.drop_last()[t],
            ) by {
                assert(lex_leq()(b[s], b[t]));
            }
        }
        lemma_canonical_order_unique(a.drop_last(), b.drop_last());
        assert(a =~= b) by {
            assert(forall|k: int| 0 <= k < a.len() - 1 ==> a[k] == a.drop_last()[k] && b[k] == b.drop_last()[k]);
        }
    }
}

/// The canonical segment list for an object: the matching entry names,
/// in lexicographic order.
pub fn canonical_segments(names: &Vec<String>, object: &str) -> (r: Vec<String>)
    ensures
        sorted_by(views_of(r@), lex_leq()),
        views_of(r@).to_multiset() == views_of(names@).filter(object_pred(object@)).to_multiset(),
{
    let mut selected = select_segments(names, object);
    sort_names(&mut selected);
    selected
}

/// An element of a filtered sequence is an element of the original.
pub(crate) proof fn lemma_filter_in_original<A>(s: Seq<A>, pred: spec_fn(A) -> bool, x: A)
    requires
        s.filter(pred).contains(x),
    ensures
        s.contains(x),
    decreases s.len(),
{
    reveal(Seq::filter);
    if s.len() > 0 {
        let f = s.filter(pred);
        let fd = s.drop_last().filter(pred);
        if pred(s.last()) && x == s.last() {
            assert(s[s.len() - 1] == x);
        } else {
            assert(fd.contains(x)) by {
                let idx = choose|i: int| 0 <= i < f.len() && f[i] == x;
                if pred(s.last()) {
                    assert(f == fd.push(s.last()));
                    assert(idx < f.len() - 1);
                    assert(fd[idx] == x);
                } else {
                    assert(f == fd);
                }
            }
            lemma_filter_in_original(s.drop_last(), pred, x);
            let j = choose|j: int| 0 <= j < s.drop_last().len() && s.drop_last()[j] == x;
            assert(s[j] == x);
        }
    }
}

/// Filtering keeps a duplicate-free sequence duplicate-free.
pub(crate) proof fn lemma_filter_no_duplicates<A>(s: Seq<A>, pred: spec_fn(A) -> bool)
    requires
        s.no_duplicates(),
    ensures
        s.filter(pred).no_duplicates(),
    decreases s.len(),
{
    reveal(Seq::filter);
    if s.len() > 0 {
        let sd = s.drop_last();
        assert(sd.no_duplicates()) by {
            assert(forall|i: int, j: int|
                0 <= i < sd.len() && 0 <= j < sd.len() && i != j ==> sd[i] == s[i] && sd[j] == s[j]);
        }
        lemma_filter_no_duplicates(sd, pred);
        let fd = sd.filter(pred);
        if pred(s.last()) {
            assert(!fd.contains(s.last())) by {
                if fd.contains(s.last()) {
                    lemma_filter_in_original(sd, pred, s.last());
                    let j = choose|j: int| 0 <= j < sd.len() && sd[j] == s.last();
                    assert(s[j] == s[s.len() - 1]);
                }
            }
            let f = fd.push(s.last());
            assert(s.filter(pred) == f);
            assert(f.no_duplicates()) by {
                assert forall|i: int, j: int|
                    0 <= i < f.len() && 0 <= j < f.len() && i != j implies f[i] != f[j] by {
                    if i < f.len() - 1 && j < f.len() - 1 {
                        assert(f[i] == fd[i] && f[j] == fd[j]);
                    } else if j == f.len() - 1 {
                        assert(f[i] == fd[i] && f[j] == s.last());
                        assert(!fd.contains(s.last()));
                    } else {
                        assert(f[j] == fd[j] && f[i] == s.last());
                        assert(!fd.contains(s.last()));
                    }
                }
            }
        }
    }
}

/// `names` is the canonical segment list of `object` over the given
/// set of present entry names: every matching present name exactly
/// once, in lexicographic order.
pub open spec fn canonical_for(
    present: Set<Seq<char>>,
    object: Seq<char>,
    names: Seq<Seq<char>>,
) -> bool {
    &&& sorted_by(names, lex_leq())
    &&& names.no_duplicates()
    &&& forall|n: Seq<char>|
        #![trigger names.contains(n)]
        #![trigger present.contains(n)]
        names.contains(n) <==> (present.contains(n) && matches_object(object, n))
}

/// For one container and one object there is exactly one canonical
/// segment list: whatever order the container's entries were
/// enumerated in, two lists canonical for the same entries are the
/// same list.
pub proof fn lemma_canonical_for_unique(
    present: Set<Seq<char>>,
    object: Seq<char>,
    a: Seq<Seq<char>>,
    b: Seq<Seq<char>>,
)
    requires
        canonical_for(present, object, a),
        canonical_for(present, object, b),
    ensures
        a == b,
{
    broadcast use vstd::seq_lib::group_to_multiset_ensures;

    a.lemma_multiset_has_no_duplicates();
    b.lemma_multiset_has_no_duplicates();
    assert(a.to_multiset() =~= b.to_multiset()) by {
        assert forall|x: Seq<char>| a.to_multiset().count(x) == b.to_multiset().count(x) by {
            assert(a.contains(x) <==> b.contains(x));
            if a.contains(x) {
                assert(a.to_multiset().count(x) == 1);
                assert(b.to_multiset().count(x) == 1);
            } else {
                assert(a.to_multiset().count(x) == 0);
                assert(b.to_multiset().count(x) == 0);
            }
        }
    }
    lemma_canonical_order_unique(a, b);
}

} // verus!
