//! Laws of the document model, proved once and for all: overrides are won
//! by the later setting, unrelated settings do not disturb one another, a
//! dotted key builds one table per intermediate segment, and comment-only
//! and blank lines are transparent to the assembled document.
use crate::parser::classify;
use crate::parser::doc_of_settings;
use crate::parser::is_setting_line;
use crate::parser::setting_of;
use crate::parser::settings_of;
use crate::text::trim_front;
use crate::value::insert_path;
use crate::value::lemma_path_of_nonempty;
use crate::value::lookup;
use crate::value::path_of;
use crate::value::SpecValue;
use vstd::prelude::*;

verus! {

broadcast use vstd::seq::group_seq_axioms;

/// One path is an initial run of the other.
pub open spec fn is_path_prefix(p: Seq<Seq<char>>, q: Seq<Seq<char>>) -> bool {
    p.len() <= q.len() && p == q.subrange(0, p.len() as int)
}

/// Two paths are unrelated when neither is a prefix of the other: the
/// nodes they name lie in disjoint subtrees.
pub open spec fn unrelated(p: Seq<Seq<char>>, q: Seq<Seq<char>>) -> bool {
    !is_path_prefix(p, q) && !is_path_prefix(q, p)
}

/// Inserting a path makes that very path resolve to the inserted leaf.
pub proof fn lemma_insert_path_same(m: Map<Seq<char>, SpecValue>, p: Seq<Seq<char>>, v: Seq<char>)
    requires
        p.len() >= 1,
    ensures
        lookup(insert_path(m, p, v), p) == Some(SpecValue::Leaf(v)),
    decreases p.len(),
{
    if p.len() > 1 {
        let sub = if m.contains_key(p[0]) && m[p[0]] is Table {
            m[p[0]]->Table_0
        } else {
            Map::<Seq<char>, SpecValue>::empty()
        };
        lemma_insert_path_same(sub, p.drop_first(), v);
    }
}

/// Inserting along one path leaves the value at any unrelated path as it
/// was: sibling subtrees do not disturb one another.
pub proof fn lemma_insert_path_unrelated(
    m: Map<Seq<char>, SpecValue>,
    p: Seq<Seq<char>>,
    q: Seq<Seq<char>>,
    v: Seq<char>,
)
    requires
        p.len() >= 1,
        q.len() >= 1,
        unrelated(p, q),
    ensures
        lookup(insert_path(m, q, v), p) == lookup(m, p),
    decreases p.len(),
{
    if p[0] != q[0] {
        let m2 = insert_path(m, q, v);
        assert(m2.contains_key(p[0]) == m.contains_key(p[0]));
        assert(m.contains_key(p[0]) ==> m2[p[0]] == m[p[0]]);
    } else {
        if q.len() == 1 {
            assert(q =~= p.subrange(0, 1));
            assert(is_path_prefix(q, p));
        } else if p.len() == 1 {
            assert(p =~= q.subrange(0, 1));
            assert(is_path_prefix(p, q));
        } else {
            let p1 = p.drop_first();
            let q1 = q.drop_first();
            assert(!is_path_prefix(p1, q1)) by {
                if is_path_prefix(p1, q1) {
                    assert forall|t: int| 0 <= t < p.len() implies p[t] == q[t] by {
                        if t >= 1 {
                            assert(p[t] == p1[t - 1]);
                            assert(p1[t - 1] == q1.subrange(0, p1.len() as int)[t - 1]);
                            assert(q1[t - 1] == q[t]);
                        }
                    }
                    assert(p =~= q.subrange(0, p.len() as int));
                }
            }
            assert(!is_path_prefix(q1, p1)) by {
                if is_path_prefix(q1, p1) {
                    assert forall|t: int| 0 <= t < q.len() implies q[t] == p[t] by {
                        if t >= 1 {
                            assert(q[t] == q1[t - 1]);
                            assert(q1[t - 1] == p1.subrange(0, q1.len() as int)[t - 1]);
                            assert(p1[t - 1] == p[t]);
                        }
                    }
                    assert(q =~= p.subrange(0, q.len() as int));
                }
            }
            let sub = if m.contains_key(q[0]) && m[q[0]] is Table {
                m[q[0]]->Table_0
            } else {
                Map::<Seq<char>, SpecValue>::empty()
            };
            lemma_insert_path_unrelated(sub, p1, q1, v);
            if m.contains_key(p[0]) && m[p[0]] is Table {
                assert(lookup(m, p) == lookup(sub, p1));
            } else {
                assert(lookup(m, p) is None);
                assert(lookup(sub, p1) is None);
            }
        }
    }
}

/// Order independence of unrelated keys: two insertions along unrelated
/// paths commute, leaving the very same document.
pub proof fn lemma_unrelated_inserts_commute(
    m: Map<Seq<char>, SpecValue>,
    p: Seq<Seq<char>>,
    q: Seq<Seq<char>>,
    v1: Seq<char>,
    v2: Seq<char>,
)
    requires
        p.len() >= 1,
        q.len() >= 1,
        unrelated(p, q),
    ensures
        insert_path(insert_path(m, p, v1), q, v2) == insert_path(insert_path(m, q, v2), p, v1),
    decreases p.len(),
{
    if p[0] != q[0] {
        assert(insert_path(insert_path(m, p, v1), q, v2) =~= insert_path(
            insert_path(m, q, v2),
            p,
            v1,
        ));
    } else {
        assert(p.len() >= 2 && q.len() >= 2) by {
            if q.len() == 1 {
                assert(q =~= p.subrange(0, 1));
                assert(is_path_prefix(q, p));
            }
            if p.len() == 1 {
                assert(p =~= q.subrange(0, 1));
                assert(is_path_prefix(p, q));
            }
        }
        let p1 = p.drop_first();
        let q1 = q.drop_first();
        assert(unrelated(p1, q1)) by {
            if is_path_prefix(p1, q1) {
                assert forall|t: int| 0 <= t < p.len() implies p[t] == q[t] by {
                    if t >= 1 {
                        assert(p[t] == p1[t - 1]);
                        assert(p1[t - 1] == q1.subrange(0, p1.len() as int)[t - 1]);
                        assert(q1[t - 1] == q[t]);
                    }
                }
                assert(p =~= q.subrange(0, p.len() as int));
            }
            if is_path_prefix(q1, p1) {
                assert forall|t: int| 0 <= t < q.len() implies q[t] == p[t] by {
                    if t >= 1 {
                        assert(q[t] == q1[t - 1]);
                        assert(q1[t - 1] == p1.subrange(0, q1.len() as int)[t - 1]);
                        assert(p1[t - 1] == p[t]);
                    }
                }
                assert(q =~= p.subrange(0, q.len() as int));
            }
        }
        let sub = if m.contains_key(p[0]) && m[p[0]] is Table {
            m[p[0]]->Table_0
        } else {
            Map::<Seq<char>, SpecValue>::empty()
        };
        lemma_unrelated_inserts_commute(sub, p1, q1, v1, v2);
        assert(insert_path(insert_path(m, p, v1), q, v2) =~= insert_path(
            insert_path(m, q, v2),
            p,
            v1,
        ));
    }
}

/// The later of two settings with the same full key path determines the
/// final value, no matter how many unrelated settings stand between or
/// after them: the document resolves that path to the later value.
pub proof fn lemma_later_setting_wins(ss: Seq<(Seq<char>, Seq<char>)>, k: int)
    requires
        0 <= k < ss.len(),
        forall|j: int|
            k < j < ss.len() ==> unrelated(path_of((#[trigger] ss[j]).0), path_of(ss[k].0)),
    ensures
        lookup(doc_of_settings(ss), path_of(ss[k].0)) == Some(SpecValue::Leaf(ss[k].1)),
    decreases ss.len(),
{
    lemma_path_of_nonempty(ss[k].0);
    if k == ss.len() - 1 {
        lemma_insert_path_same(doc_of_settings(ss.drop_last()), path_of(ss[k].0), ss[k].1);
    } else {
        let last = ss.last();
        lemma_path_of_nonempty(last.0);
        lemma_insert_path_unrelated(
            doc_of_settings(ss.drop_last()),
            path_of(ss[k].0),
            path_of(last.0),
            last.1,
        );
        assert(ss.drop_last()[k] == ss[k]);
        lemma_later_setting_wins(ss.drop_last(), k);
    }
}

/// An `n`-segment dotted key inserted into an empty document builds exactly
/// `n - 1` nested single-key tables with the leaf at the end: the document
/// has the first segment as its only key, each proper prefix of the path
/// resolves to the table holding the rest, and the full path resolves to
/// the leaf.
pub proof fn lemma_dotted_path_depth(p: Seq<Seq<char>>, v: Seq<char>)
    requires
        p.len() >= 1,
    ensures
        insert_path(Map::empty(), p, v).dom() == set![p[0]],
        lookup(insert_path(Map::empty(), p, v), p) == Some(SpecValue::Leaf(v)),
        forall|i: int|
            1 <= i < p.len() ==> lookup(insert_path(Map::empty(), p, v), p.subrange(0, i))
                == Some(
                SpecValue::Table(insert_path(Map::empty(), #[trigger] p.subrange(i, p.len() as int), v)),
            ),
    decreases p.len(),
{
    let ins = insert_path(Map::<Seq<char>, SpecValue>::empty(), p, v);
    lemma_insert_path_same(Map::<Seq<char>, SpecValue>::empty(), p, v);
    if p.len() == 1 {
        assert(ins.dom() =~= set![p[0]]);
    } else {
        let p1 = p.drop_first();
        let ins1 = insert_path(Map::<Seq<char>, SpecValue>::empty(), p1, v);
        assert(ins == Map::<Seq<char>, SpecValue>::empty().insert(p[0], SpecValue::Table(ins1)));
        assert(ins.dom() =~= set![p[0]]);
        lemma_dotted_path_depth(p1, v);
        assert forall|i: int| 1 <= i < p.len() implies lookup(ins, p.subrange(0, i)) == Some(
            SpecValue::Table(insert_path(Map::empty(), #[trigger] p.subrange(i, p.len() as int), v)),
        ) by {
            let pre = p.subrange(0, i);
            assert(pre[0] == p[0]);
            if i == 1 {
                assert(p.subrange(1, p.len() as int) =~= p1);
            } else {
                assert(pre.drop_first() =~= p1.subrange(0, i - 1));
                assert(p1.subrange(i - 1, p1.len() as int) =~= p.subrange(i, p.len() as int));
                assert(lookup(ins, pre) == lookup(ins1, p1.subrange(0, i - 1)));
            }
        }
    }
}

/// A later leaf assignment to a prefix path destroys the earlier table:
/// `a.b = y` then `a = x` leaves `a` bound to the leaf `x`.
pub proof fn lemma_table_then_leaf(
    m: Map<Seq<char>, SpecValue>,
    a: Seq<char>,
    b: Seq<char>,
    x: Seq<char>,
    y: Seq<char>,
)
    ensures
        lookup(insert_path(insert_path(m, seq![a, b], y), seq![a], x), seq![a]) == Some(
            SpecValue::Leaf(x),
        ),
{
    let m2 = insert_path(insert_path(m, seq![a, b], y), seq![a], x);
    assert(m2 == insert_path(m, seq![a, b], y).insert(a, SpecValue::Leaf(x)));
}

/// A later dotted assignment below a leaf destroys the leaf: `a = x` then
/// `a.b = y` leaves `a` bound to the single-key table `{b: y}`.
pub proof fn lemma_leaf_then_table(
    m: Map<Seq<char>, SpecValue>,
    a: Seq<char>,
    b: Seq<char>,
    x: Seq<char>,
    y: Seq<char>,
)
    ensures
        lookup(insert_path(insert_path(m, seq![a], x), seq![a, b], y), seq![a]) == Some(
            SpecValue::Table(Map::<Seq<char>, SpecValue>::empty().insert(b, SpecValue::Leaf(y))),
        ),
        lookup(insert_path(insert_path(m, seq![a], x), seq![a, b], y), seq![a, b]) == Some(
            SpecValue::Leaf(y),
        ),
{
    let m1 = insert_path(m, seq![a], x);
    let p = seq![a, b];
    assert(m1 == m.insert(a, SpecValue::Leaf(x)));
    assert(m1.contains_key(a) && m1[a] is Leaf);
    let m2 = insert_path(m1, p, y);
    assert(p.drop_first() =~= seq![b]);
    assert(m2 == m1.insert(
        a,
        SpecValue::Table(
            insert_path(Map::<Seq<char>, SpecValue>::empty(), seq![b], y),
        ),
    ));
    assert(insert_path(Map::<Seq<char>, SpecValue>::empty(), seq![b], y)
        == Map::<Seq<char>, SpecValue>::empty().insert(b, SpecValue::Leaf(y)));
    lemma_insert_path_same(m1, p, y);
}

/// Deleting every comment-only and every blank line from the input leaves
/// the settings, and with them the assembled document, unchanged.
pub proof fn lemma_comment_blank_transparency(lines: Seq<Seq<char>>)
    ensures
        settings_of(
            lines.filter(|l: Seq<char>| !(classify(l) is Comment) && trim_front(l).len() != 0),
        ) == settings_of(lines),
        doc_of_settings(
            settings_of(
                lines.filter(
                    |l: Seq<char>| !(classify(l) is Comment) && trim_front(l).len() != 0,
                ),
            ),
        ) == doc_of_settings(settings_of(lines)),
    decreases lines.len(),
{
    reveal(Seq::filter);
    let keep = |l: Seq<char>| !(classify(l) is Comment) && trim_front(l).len() != 0;
    let pred = |l: Seq<char>| is_setting_line(l);
    let f = |l: Seq<char>| setting_of(l);
    if lines.len() == 0 {
        assert(lines.filter(keep) =~= lines);
    } else {
        let dl = lines.drop_last();
        let last = lines.last();
        lemma_comment_blank_transparency(dl);
        assert(pred(last) ==> keep(last));
        if keep(last) {
            assert(lines.filter(keep) == dl.filter(keep).push(last));
            assert(dl.filter(keep).push(last).drop_last() =~= dl.filter(keep));
            assert(dl.filter(keep).push(last).last() == last);
            if pred(last) {
                assert(lines.filter(keep).filter(pred) == dl.filter(keep).filter(pred).push(
                    last,
                ));
                assert(lines.filter(pred) == dl.filter(pred).push(last));
                assert(dl.filter(keep).filter(pred).push(last).map_values(f)
                    =~= dl.filter(keep).filter(pred).map_values(f).push(f(last)));
                assert(dl.filter(pred).push(last).map_values(f) =~= dl.filter(
                    pred,
                ).map_values(f).push(f(last)));
            } else {
                assert(lines.filter(keep).filter(pred) == dl.filter(keep).filter(pred));
                assert(lines.filter(pred) == dl.filter(pred));
            }
        } else {
            assert(lines.filter(keep) == dl.filter(keep));
            assert(lines.filter(pred) == dl.filter(pred));
        }
    }
}

} // verus!
