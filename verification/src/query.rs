//! The query/sort engine: globally sorted views over the store's records.
//!
//! The comparator is composed first — the requested field, ties broken by
//! ascending identifier — and the requested direction then inverts the whole
//! composed result. A descending sort therefore also reverses the tie-break:
//! records equal on the primary field come out in descending identifier
//! order. The direction governs the tie-break together with the field, not
//! independently of it, and the contracts below pin that down.

use vstd::multiset::Multiset;
use vstd::prelude::*;
use vstd::relations::sorted_by;

use crate::record::Student;
use crate::record::StudentV;
use crate::store::StudentStore;
use crate::text::chars_lt;
use crate::text::lemma_chars_lt_trans;
use crate::text::lemma_chars_lt_trichotomy;
use crate::text::str_eq;
use crate::text::str_lt;

verus! {

/// The field a sorted view is keyed on.
#[derive(Clone, Copy, Debug, PartialEq, Eq, Structural)]
pub enum SortField {
    Id,
    Name,
    Age,
    Class,
}

/// The direction of a sorted view.
#[derive(Clone, Copy, Debug, PartialEq, Eq, Structural)]
pub enum SortDirection {
    Asc,
    Desc,
}

/// Strict comparison on the requested field alone.
pub open spec fn field_lt(a: StudentV, b: StudentV, f: SortField) -> bool {
    match f {
        SortField::Id => a.id < b.id,
        SortField::Name => chars_lt(a.name, b.name),
        SortField::Age => a.age < b.age,
        SortField::Class => chars_lt(a.class_name, b.class_name),
    }
}

/// Equality on the requested field alone.
pub open spec fn field_eq(a: StudentV, b: StudentV, f: SortField) -> bool {
    match f {
        SortField::Id => a.id == b.id,
        SortField::Name => a.name == b.name,
        SortField::Age => a.age == b.age,
        SortField::Class => a.class_name == b.class_name,
    }
}

/// The composed comparator: the requested field first, ties broken by
/// ascending identifier.
pub open spec fn composed_le(a: StudentV, b: StudentV, f: SortField) -> bool {
    field_lt(a, b, f) || (field_eq(a, b, f) && a.id <= b.id)
}

/// The ordering a sorted view obeys: the direction inverts the entire
/// composed comparator, tie-break included.
pub open spec fn order_le(f: SortField, d: SortDirection, a: StudentV, b: StudentV) -> bool {
    match d {
        SortDirection::Asc => composed_le(a, b, f),
        SortDirection::Desc => composed_le(b, a, f),
    }
}

/// `order_le` as a binary relation, for `sorted_by`.
pub open spec fn order_leq_fn(f: SortField, d: SortDirection) -> spec_fn(StudentV, StudentV) -> bool {
    |a: StudentV, b: StudentV| order_le(f, d, a, b)
}

/// Any two records are comparable.
pub proof fn lemma_order_le_total(f: SortField, d: SortDirection, a: StudentV, b: StudentV)
    ensures
        order_le(f, d, a, b) || order_le(f, d, b, a),
{
    lemma_chars_lt_trichotomy(a.name, b.name);
    lemma_chars_lt_trichotomy(a.class_name, b.class_name);
}

/// The ordering is transitive.
pub proof fn lemma_order_le_trans(
    f: SortField,
    d: SortDirection,
    a: StudentV,
    b: StudentV,
    c: StudentV,
)
    requires
        order_le(f, d, a, b),
        order_le(f, d, b, c),
    ensures
        order_le(f, d, a, c),
{
    lemma_chars_lt_trichotomy(a.name, b.name);
    lemma_chars_lt_trichotomy(b.name, c.name);
    lemma_chars_lt_trichotomy(a.class_name, b.class_name);
    lemma_chars_lt_trichotomy(b.class_name, c.class_name);
    if chars_lt(a.name, b.name) && chars_lt(b.name, c.name) {
        lemma_chars_lt_trans(a.name, b.name, c.name);
    }
    if chars_lt(b.name, a.name) && chars_lt(c.name, b.name) {
        lemma_chars_lt_trans(c.name, b.name, a.name);
    }
    if chars_lt(a.class_name, b.class_name) && chars_lt(b.class_name, c.class_name) {
        lemma_chars_lt_trans(a.class_name, b.class_name, c.class_name);
    }
    if chars_lt(b.class_name, a.class_name) && chars_lt(c.class_name, b.class_name) {
        lemma_chars_lt_trans(c.class_name, b.class_name, a.class_name);
    }
}

/// Two records each at or below the other agree on the sort field and carry
/// the same identifier: on a store, whose identifiers are unique, the
/// ordering is antisymmetric.
pub proof fn lemma_order_le_antisym(f: SortField, d: SortDirection, a: StudentV, b: StudentV)
    requires
        order_le(f, d, a, b),
        order_le(f, d, b, a),
    ensures
        field_eq(a, b, f),
        a.id == b.id,
{
    lemma_chars_lt_trichotomy(a.name, b.name);
    lemma_chars_lt_trichotomy(a.class_name, b.class_name);
}

/// Decides `composed_le` on two records.
fn composed_le_exec(a: &Student, b: &Student, f: SortField) -> (r: bool)
    ensures
        r == composed_le(a@, b@, f),
{
    let lt = match f {
        SortField::Id => a.id < b.id,
        SortField::Name => str_lt(a.name.as_str(), b.name.as_str()),
        SortField::Age => a.age < b.age,
        SortField::Class => str_lt(a.class_name.as_str(), b.class_name.as_str()),
    };
    if lt {
        true
    } else {
        let eq = match f {
            SortField::Id => a.id == b.id,
            SortField::Name => str_eq(a.name.as_str(), b.name.as_str()),
            SortField::Age => a.age == b.age,
            SortField::Class => str_eq(a.class_name.as_str(), b.class_name.as_str()),
        };
        eq && a.id <= b.id
    }
}

/// Decides the applied ordering on two records.
fn order_le_exec(a: &Student, b: &Student, f: SortField, d: SortDirection) -> (r: bool)
    ensures
        r == order_le(f, d, a@, b@),
{
    match d {
        SortDirection::Asc => composed_le_exec(a, b, f),
        SortDirection::Desc => composed_le_exec(b, a, f),
    }
}

/// A full sorted snapshot of the store: a permutation of the live records,
/// sorted by the composed, direction-inverted comparator. Together with
/// `lemma_sorted_view_unique` this pins the result down completely, since
/// the store's identifiers are unique.
pub fn order_students(store: &StudentStore, field: SortField, direction: SortDirection) -> (r: Vec<
    Student,
>)
    ensures
        sorted_by(r.deep_view(), order_leq_fn(field, direction)),
        r.deep_view().to_multiset() == store.records().to_multiset(),
{
    let mut src: Vec<Student> = store.list_by_id();
    let mut out: Vec<Student> = Vec::new();
    let ghost leq = order_leq_fn(field, direction);
    proof {
        broadcast use vstd::multiset::group_multiset_axioms;

        src.deep_view().to_multiset_ensures();
        out.deep_view().to_multiset_ensures();
        assert(out.deep_view() =~= Seq::<StudentV>::empty());
        vstd::multiset::lemma_multiset_empty_len(out.deep_view().to_multiset());
        assert(out.deep_view().to_multiset() =~= Multiset::<StudentV>::empty());
        assert(out.deep_view().to_multiset().add(src.deep_view().to_multiset())
            =~= store.records().to_multiset());
    }
    while src.len() != 0
        invariant
            leq == order_leq_fn(field, direction),
            out.deep_view().to_multiset().add(src.deep_view().to_multiset())
                == store.records().to_multiset(),
            sorted_by(out.deep_view(), leq),
            forall|i: int, j: int|
                #![trigger out.deep_view()[i], src.deep_view()[j]]
                0 <= i < out.deep_view().len() && 0 <= j < src.deep_view().len() ==> order_le(
                    field, direction, out.deep_view()[i], src.deep_view()[j],
                ),
        decreases src.len(),
    {
        let mut min: usize = 0;
        let mut t: usize = 1;
        while t < src.len()
            invariant
                0 <= min < t <= src.len(),
                forall|j: int|
                    0 <= j < t ==> order_le(
                        field, direction, src.deep_view()[min as int],
                        #[trigger] src.deep_view()[j],
                    ),
            decreases src.len() - t,
        {
            if order_le_exec(&src[t], &src[min], field, direction) {
                proof {
                    assert forall|j: int|
                        0 <= j < t + 1 implies order_le(
                        field, direction, src.deep_view()[t as int],
                        #[trigger] src.deep_view()[j],
                    ) by {
                        if j < t {
                            lemma_order_le_trans(
                                field,
                                direction,
                                src.deep_view()[t as int],
                                src.deep_view()[min as int],
                                src.deep_view()[j],
                            );
                        }
                    }
                }
                min = t;
            } else {
                proof {
                    lemma_order_le_total(
                        field,
                        direction,
                        src.deep_view()[min as int],
                        src.deep_view()[t as int],
                    );
                }
            }
            t = t + 1;
        }
        let ghost src0 = src.deep_view();
        let ghost out0 = out.deep_view();
        let picked = src.remove(min);
        out.push(picked);
        proof {
            src0.to_multiset_ensures();
            out0.to_multiset_ensures();
            assert(src.deep_view() =~= src0.remove(min as int));
            assert(out.deep_view() =~= out0.push(picked@));
            assert(picked@ == src0[min as int]);
            assert(out.deep_view().to_multiset().add(src.deep_view().to_multiset())
                =~= store.records().to_multiset()) by {
                assert(src.deep_view().to_multiset() =~= src0.to_multiset().remove(
                    src0[min as int],
                ));
                assert(out.deep_view().to_multiset() =~= out0.to_multiset().insert(
                    src0[min as int],
                ));
                assert(src0.to_multiset().count(src0[min as int]) > 0) by {
                    assert(src0.contains(src0[min as int]));
                }
            }
            assert(sorted_by(out.deep_view(), leq)) by {
                assert forall|i: int, j: int|
                    0 <= i < j < out.deep_view().len() implies leq(
                    out.deep_view()[i], out.deep_view()[j],
                ) by {
                    if j < out0.len() {
                        assert(leq(out0[i], out0[j]));
                    } else {
                        assert(out.deep_view()[j] == src0[min as int]);
                        assert(order_le(field, direction, out0[i], src0[min as int]));
                    }
                }
            }
            assert forall|i: int, j: int|
                #![trigger out.deep_view()[i], src.deep_view()[j]]
                0 <= i < out.deep_view().len() && 0 <= j < src.deep_view().len() implies order_le(
                field, direction, out.deep_view()[i], src.deep_view()[j],
            ) by {
                let j0 = if j < min as int { j } else { j + 1 };
                assert(src.deep_view()[j] == src0[j0]);
                if i < out0.len() {
                    assert(order_le(field, direction, out0[i], src0[j0]));
                } else {
                    assert(out.deep_view()[i] == src0[min as int]);
                    assert(order_le(field, direction, src0[min as int], src0[j0]));
                }
            }
        }
    }
    proof {
        broadcast use vstd::multiset::group_multiset_axioms;

        src.deep_view().to_multiset_ensures();
        assert(src.deep_view() =~= Seq::<StudentV>::empty());
        vstd::multiset::lemma_multiset_empty_len(src.deep_view().to_multiset());
        assert(src.deep_view().to_multiset() =~= Multiset::<StudentV>::empty());
        assert(out.deep_view().to_multiset() =~= store.records().to_multiset());
    }
    out
}

/// Sorted views are unique: two sequences of records with pairwise distinct
/// identifiers, sorted under the same field and direction and holding the
/// same records, are equal. The permutation-and-sortedness contract of
/// `order_students` therefore determines its output completely.
pub proof fn lemma_sorted_view_unique(
    x: Seq<StudentV>,
    y: Seq<StudentV>,
    f: SortField,
    d: SortDirection,
)
    requires
        sorted_by(x, order_leq_fn(f, d)),
        sorted_by(y, order_leq_fn(f, d)),
        x.to_multiset() == y.to_multiset(),
        forall|i: int, j: int|
            #![trigger x[i].id, x[j].id]
            0 <= i < j < x.len() ==> x[i].id != x[j].id,
    ensures
        x =~= y,
    decreases x.len(),
{
    broadcast use vstd::seq_lib::group_to_multiset_ensures;

    if x.len() == 0 {
        assert(y.to_multiset().len() == 0);
    } else if y.len() == 0 {
        assert(x.to_multiset().len() == 0);
    } else {
        assert(x.to_multiset().contains(x[0]));
        assert(y.to_multiset().contains(y[0]));
        assert(x.to_multiset().count(y[0]) > 0);
        assert(x.contains(y[0]));
        let i = choose|i: int| 0 <= i < x.len() && x[i] == y[0];
        assert(y.contains(x[0]));
        let j = choose|j: int| 0 <= j < y.len() && y[j] == x[0];
        assert(order_leq_fn(f, d)(x[0], x[i]));
        assert(order_leq_fn(f, d)(y[0], y[j]));
        assert(order_le(f, d, x[0], y[0]));
        assert(order_le(f, d, y[0], x[0]));
        lemma_order_le_antisym(f, d, x[0], y[0]);
        assert(x[0].id == y[0].id);
        if i != 0 {
            assert(x[0].id != x[i].id);
            assert(x[i] == y[0]);
            assert(false);
        }
        assert(x[0] == y[0]);
        let xr = x.drop_first();
        let yr = y.drop_first();
        assert(xr.to_multiset() =~= x.to_multiset().remove(x[0])) by {
            assert(x.remove(0) =~= xr);
        }
        assert(yr.to_multiset() =~= y.to_multiset().remove(y[0])) by {
            assert(y.remove(0) =~= yr);
        }
        assert(sorted_by(xr, order_leq_fn(f, d))) by {
            assert forall|a: int, b: int|
                0 <= a < b < xr.len() implies order_leq_fn(f, d)(xr[a], xr[b]) by {
                assert(order_leq_fn(f, d)(x[a + 1], x[b + 1]));
            }
        }
        assert(sorted_by(yr, order_leq_fn(f, d))) by {
            assert forall|a: int, b: int|
                0 <= a < b < yr.len() implies order_leq_fn(f, d)(yr[a], yr[b]) by {
                assert(order_leq_fn(f, d)(y[a + 1], y[b + 1]));
            }
        }
        assert forall|a: int, b: int|
            #![trigger xr[a].id, xr[b].id]
            0 <= a < b < xr.len() implies xr[a].id != xr[b].id by {
            assert(x[a + 1].id != x[b + 1].id);
        }
        lemma_sorted_view_unique(xr, yr, f, d);
        assert forall|k: int| 0 <= k < x.len() implies x[k] == y[k] by {
            if k > 0 {
                assert(xr[k - 1] == yr[k - 1]);
            }
        }
    }
}

} // verus!
