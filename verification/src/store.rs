//! The record store: a primary sequence of records ordered by identifier, an
//! identifier index mirroring it, and a name index mapping each name to the
//! ordered set of identifiers currently holding it.
//!
//! All three structures are plain vectors, so the verifier sees their whole
//! contents, and their agreement is an explicit invariant (`wf`): the
//! primary vector is strictly sorted by identifier, the identifier index
//! lists exactly those identifiers, and every name bucket holds exactly the
//! identifiers of the records bearing its name, in ascending order. A keyed
//! map with set-valued buckets would behave the same; here the invariant is
//! what carries that behavior, and every operation proves it is kept.

use vstd::prelude::*;

use crate::record::Student;
use crate::record::StudentV;
use crate::text::str_eq;

verus! {

/// One bucket of the name index: a name together with the identifiers of the
/// records currently holding that name, in ascending order.
pub struct NameBucket {
    pub name: String,
    pub ids: Vec<u32>,
}

/// Mathematical view of a name bucket.
pub ghost struct BucketV {
    pub name: Seq<char>,
    pub ids: Seq<u32>,
}

impl View for NameBucket {
    type V = BucketV;

    open spec fn view(&self) -> BucketV {
        BucketV { name: self.name@, ids: self.ids@ }
    }
}

impl DeepView for NameBucket {
    type V = BucketV;

    open spec fn deep_view(&self) -> BucketV {
        self.view()
    }
}

/// The identifiers of a record sequence, in order.
pub open spec fn ids_of(rs: Seq<StudentV>) -> Seq<u32> {
    rs.map_values(|sv: StudentV| sv.id)
}

/// The records of `rs` whose name is exactly `n`, in order.
pub open spec fn with_name(rs: Seq<StudentV>, n: Seq<char>) -> Seq<StudentV> {
    rs.filter(|sv: StudentV| sv.name == n)
}

/// The identifiers a bucket named `n` must hold when the records are `rs`.
pub open spec fn bucket_ids(rs: Seq<StudentV>, n: Seq<char>) -> Seq<u32> {
    ids_of(with_name(rs, n))
}

/// Some record in `rs` carries identifier `id`.
pub open spec fn contains_id(rs: Seq<StudentV>, id: u32) -> bool {
    exists|i: int| 0 <= i < rs.len() && rs[i].id == id
}

/// An index at which `rs` carries identifier `id` (unique when the
/// identifiers of `rs` are strictly sorted).
pub open spec fn index_of_id(rs: Seq<StudentV>, id: u32) -> int {
    choose|i: int| 0 <= i < rs.len() && rs[i].id == id
}

/// The identifiers of `rs` are strictly increasing.
pub open spec fn sorted_ids(rs: Seq<StudentV>) -> bool {
    forall|i: int, j: int|
        #![trigger rs[i].id, rs[j].id]
        0 <= i < j < rs.len() ==> rs[i].id < rs[j].id
}

/// No two buckets share a name.
pub open spec fn distinct_names(bs: Seq<BucketV>) -> bool {
    forall|i: int, j: int|
        #![trigger bs[i].name, bs[j].name]
        0 <= i < j < bs.len() ==> bs[i].name != bs[j].name
}

/// Every bucket holds exactly the identifiers of the records bearing its
/// name.
pub open spec fn buckets_match(bs: Seq<BucketV>, rs: Seq<StudentV>) -> bool {
    forall|i: int| 0 <= i < bs.len() ==> #[trigger] bs[i].ids == bucket_ids(rs, bs[i].name)
}

/// No bucket is empty.
pub open spec fn buckets_nonempty(bs: Seq<BucketV>) -> bool {
    forall|i: int| 0 <= i < bs.len() ==> (#[trigger] bs[i].ids).len() > 0
}

/// Some bucket of `bs` is named `n`.
pub open spec fn has_bucket_for(bs: Seq<BucketV>, n: Seq<char>) -> bool {
    exists|i: int| 0 <= i < bs.len() && (#[trigger] bs[i].name) == n
}

/// An index of a bucket named `n` (unique when names are distinct).
pub open spec fn bucket_index_for(bs: Seq<BucketV>, n: Seq<char>) -> int {
    choose|i: int| 0 <= i < bs.len() && (#[trigger] bs[i].name) == n
}

/// Every record's name has a bucket.
pub open spec fn names_covered(rs: Seq<StudentV>, bs: Seq<BucketV>) -> bool {
    forall|j: int| 0 <= j < rs.len() ==> #[trigger] has_bucket_for(bs, rs[j].name)
}

/// How appending a record changes the records bearing a name: the matching
/// bucket gains the new identifier at its end, every other bucket is
/// untouched.
pub proof fn lemma_bucket_ids_push(rs: Seq<StudentV>, n: Seq<char>, sv: StudentV)
    ensures
        sv.name == n ==> with_name(rs.push(sv), n) == with_name(rs, n).push(sv),
        sv.name != n ==> with_name(rs.push(sv), n) == with_name(rs, n),
        sv.name == n ==> bucket_ids(rs.push(sv), n) == bucket_ids(rs, n).push(sv.id),
        sv.name != n ==> bucket_ids(rs.push(sv), n) == bucket_ids(rs, n),
{
    let p = |x: StudentV| x.name == n;
    rs.lemma_filter_push(sv, p);
    if p(sv) {
        rs.filter(p).lemma_push_map_commute(|x: StudentV| x.id, sv);
    }
}

/// Appending a record appends its identifier to the identifier sequence.
pub proof fn lemma_ids_push(rs: Seq<StudentV>, sv: StudentV)
    ensures
        ids_of(rs.push(sv)) == ids_of(rs).push(sv.id),
{
    rs.lemma_push_map_commute(|x: StudentV| x.id, sv);
}

/// A name held by no record has no matching records.
pub proof fn lemma_with_name_empty(rs: Seq<StudentV>, n: Seq<char>)
    requires
        forall|j: int| 0 <= j < rs.len() ==> (#[trigger] rs[j].name) != n,
    ensures
        with_name(rs, n) =~= Seq::<StudentV>::empty(),
        bucket_ids(rs, n) =~= Seq::<u32>::empty(),
{
    let p = |x: StudentV| x.name == n;
    assert(rs.all(|x: StudentV| !p(x))) by {
        assert forall|j: int| 0 <= j < rs.len() implies !p(rs[j]) by {
            assert(rs[j].name != n);
        }
    }
    rs.lemma_all_neg_filter_empty(p);
}

/// Filtering a one-record sequence keeps the record exactly when its name
/// matches.
pub proof fn lemma_with_name_singleton(sv: StudentV, n: Seq<char>)
    ensures
        sv.name == n ==> with_name(seq![sv], n) =~= seq![sv],
        sv.name != n ==> with_name(seq![sv], n) =~= Seq::<StudentV>::empty(),
{
    let p = |x: StudentV| x.name == n;
    reveal(Seq::filter);
    assert(Seq::<StudentV>::empty().filter(p) =~= Seq::<StudentV>::empty());
    Seq::<StudentV>::empty().lemma_filter_push(sv, p);
    assert(Seq::<StudentV>::empty().push(sv) =~= seq![sv]);
}

/// The identifier projection distributes over concatenation.
pub proof fn lemma_ids_of_add(a: Seq<StudentV>, b: Seq<StudentV>)
    ensures
        ids_of(a + b) =~= ids_of(a) + ids_of(b),
{
}

/// Splitting a record sequence around position `i` splits the records
/// bearing any name accordingly, and removal at `i` removes exactly the
/// matching occurrence.
pub proof fn lemma_with_name_decompose(rs: Seq<StudentV>, i: int, m: Seq<char>)
    requires
        0 <= i < rs.len(),
    ensures
        with_name(rs, m) == with_name(rs.take(i), m) + with_name(seq![rs[i]], m) + with_name(
            rs.skip(i + 1),
            m,
        ),
        rs[i].name != m ==> with_name(rs.remove(i), m) == with_name(rs, m),
        rs[i].name == m ==> with_name(rs, m) == with_name(rs.take(i), m) + seq![rs[i]]
            + with_name(rs.skip(i + 1), m),
        with_name(rs.remove(i), m) == with_name(rs.take(i), m) + with_name(rs.skip(i + 1), m),
{
    let p = |x: StudentV| x.name == m;
    let pre = rs.take(i);
    let mid = seq![rs[i]];
    let post = rs.skip(i + 1);
    assert(rs =~= (pre + mid) + post);
    assert(rs.remove(i) =~= pre + post);
    Seq::<StudentV>::filter_distributes_over_add(pre + mid, post, p);
    Seq::<StudentV>::filter_distributes_over_add(pre, mid, p);
    Seq::<StudentV>::filter_distributes_over_add(pre, post, p);
    lemma_with_name_singleton(rs[i], m);
    if rs[i].name == m {
        assert(with_name(rs, m) =~= pre.filter(p) + seq![rs[i]] + post.filter(p));
    } else {
        assert(with_name(rs, m) =~= pre.filter(p) + post.filter(p));
    }
    assert(with_name(rs, m) =~= with_name(pre, m) + with_name(mid, m) + with_name(post, m));
}

/// Index of the first occurrence of `x` in `s`, or `-1` when absent.
pub open spec fn first_index_of(s: Seq<u32>, x: u32) -> int
    decreases s.len(),
{
    if s.len() == 0 {
        -1
    } else if s[0] == x {
        0
    } else if first_index_of(s.drop_first(), x) < 0 {
        -1
    } else {
        first_index_of(s.drop_first(), x) + 1
    }
}

/// What `first_index_of` returns: the position of the first occurrence when
/// `x` occurs, `-1` otherwise.
pub proof fn lemma_first_index_of(s: Seq<u32>, x: u32)
    ensures
        s.contains(x) ==> 0 <= first_index_of(s, x) < s.len() && s[first_index_of(s, x)] == x
            && (forall|j: int| 0 <= j < first_index_of(s, x) ==> (#[trigger] s[j]) != x),
        !s.contains(x) ==> first_index_of(s, x) == -1,
    decreases s.len(),
{
    if s.len() == 0 {
    } else if s[0] == x {
        assert(s.contains(x));
    } else {
        let rest = s.drop_first();
        lemma_first_index_of(rest, x);
        if s.contains(x) {
            let w = choose|j: int| 0 <= j < s.len() && s[j] == x;
            assert(rest[w - 1] == x);
            assert(rest.contains(x));
        }
        if rest.contains(x) {
            let w = choose|j: int| 0 <= j < rest.len() && rest[j] == x;
            assert(s[w + 1] == rest[w]);
            assert(s.contains(x));
            let fr = first_index_of(rest, x);
            assert(s[fr + 1] == rest[fr]);
            assert forall|j: int| 0 <= j < fr + 1 implies (#[trigger] s[j]) != x by {
                if j > 0 {
                    assert(rest[j - 1] != x);
                }
            }
        }
    }
}

/// A strictly increasing sequence of identifiers.
pub open spec fn u32_sorted(s: Seq<u32>) -> bool {
    forall|a: int, b: int| #![trigger s[a], s[b]] 0 <= a < b < s.len() ==> s[a] < s[b]
}

/// How many elements of `s` are less than `x`.
pub open spec fn count_lt(s: Seq<u32>, x: u32) -> int
    decreases s.len(),
{
    if s.len() == 0 {
        0
    } else {
        count_lt(s.drop_first(), x) + if s[0] < x {
            1int
        } else {
            0int
        }
    }
}

/// `count_lt` over a concatenation is the sum over the parts.
pub proof fn lemma_count_lt_add(a: Seq<u32>, b: Seq<u32>, x: u32)
    ensures
        count_lt(a + b, x) == count_lt(a, x) + count_lt(b, x),
    decreases a.len(),
{
    if a.len() == 0 {
        assert(a + b =~= b);
    } else {
        assert((a + b).drop_first() =~= a.drop_first() + b);
        lemma_count_lt_add(a.drop_first(), b, x);
    }
}

/// `count_lt` under uniform bounds: a sequence entirely below `x` counts
/// whole, one entirely at or above `x` counts nothing.
pub proof fn lemma_count_lt_uniform(s: Seq<u32>, x: u32)
    ensures
        (forall|j: int| 0 <= j < s.len() ==> (#[trigger] s[j]) < x) ==> count_lt(s, x)
            == s.len(),
        (forall|j: int| 0 <= j < s.len() ==> (#[trigger] s[j]) >= x) ==> count_lt(s, x) == 0,
    decreases s.len(),
{
    if s.len() > 0 {
        lemma_count_lt_uniform(s.drop_first(), x);
        assert forall|j: int|
            0 <= j < s.drop_first().len() implies s.drop_first()[j] == s[j + 1] by {}
    }
}

/// In a strictly sorted sequence, `count_lt` is the unique boundary: every
/// earlier element is below `x`, every later one at or above it.
pub proof fn lemma_count_lt_sorted(s: Seq<u32>, x: u32)
    requires
        u32_sorted(s),
    ensures
        0 <= count_lt(s, x) <= s.len(),
        forall|j: int| 0 <= j < count_lt(s, x) ==> (#[trigger] s[j]) < x,
        forall|j: int| count_lt(s, x) <= j < s.len() ==> (#[trigger] s[j]) >= x,
    decreases s.len(),
{
    if s.len() > 0 {
        let rest = s.drop_first();
        assert(u32_sorted(rest)) by {
            assert forall|a: int, b: int|
                0 <= a < b < rest.len() implies (#[trigger] rest[a]) < (#[trigger] rest[b]) by {
                assert(s[a + 1] < s[b + 1]);
            }
        }
        lemma_count_lt_sorted(rest, x);
        let c = count_lt(s, x);
        if s[0] < x {
            // every element below position c sits below x
            assert forall|j: int| 0 <= j < c implies (#[trigger] s[j]) < x by {
                if j > 0 {
                    assert(rest[j - 1] < x);
                }
            }
            assert forall|j: int| c <= j < s.len() implies (#[trigger] s[j]) >= x by {
                assert(rest[j - 1] >= x);
            }
        } else {
            // s[0] >= x and sortedness pins every element at or above x
            assert(count_lt(rest, x) == 0) by {
                if count_lt(rest, x) > 0 {
                    assert(rest[0] < x);
                    assert(s[0] < s[1]);
                }
            }
            assert forall|j: int| 0 <= j < s.len() implies (#[trigger] s[j]) >= x by {
                if j > 0 {
                    assert(s[0] < s[j]);
                }
            }
        }
    }
}

/// `x` occurs somewhere in `rs`.
pub open spec fn rec_present(rs: Seq<StudentV>, x: StudentV) -> bool {
    exists|j: int| 0 <= j < rs.len() && (#[trigger] rs[j]) == x
}

/// An index at which `x` occurs in `rs`.
pub open spec fn rec_index(rs: Seq<StudentV>, x: StudentV) -> int {
    choose|j: int| 0 <= j < rs.len() && (#[trigger] rs[j]) == x
}

/// Every record kept by a name filter occurs in the base sequence.
pub proof fn lemma_with_name_subset(rs: Seq<StudentV>, n: Seq<char>)
    ensures
        forall|q: int|
            0 <= q < with_name(rs, n).len() ==> #[trigger] rec_present(rs, with_name(rs, n)[q])
                && with_name(rs, n)[q].name == n,
    decreases rs.len(),
{
    let p = |x: StudentV| x.name == n;
    if rs.len() == 0 {
        reveal(Seq::filter);
    } else {
        let rest = rs.drop_last();
        lemma_with_name_subset(rest, n);
        rest.lemma_filter_push(rs.last(), p);
        assert(rest.push(rs.last()) =~= rs);
        assert forall|q: int|
            0 <= q < with_name(rs, n).len() implies #[trigger] rec_present(
                rs, with_name(rs, n)[q],
            ) && with_name(rs, n)[q].name == n by {
            if q < with_name(rest, n).len() {
                assert(rec_present(rest, with_name(rest, n)[q]));
                let w = rec_index(rest, with_name(rest, n)[q]);
                assert(rs[w] == with_name(rs, n)[q]);
            } else {
                assert(with_name(rs, n)[q] == rs.last());
                assert(rs[rs.len() - 1] == rs.last());
            }
        }
    }
}

/// A name filter of an identifier-sorted sequence is itself sorted, so a
/// bucket's identifiers are strictly increasing.
pub proof fn lemma_with_name_sorted(rs: Seq<StudentV>, n: Seq<char>)
    requires
        sorted_ids(rs),
    ensures
        sorted_ids(with_name(rs, n)),
        u32_sorted(bucket_ids(rs, n)),
        forall|q: int|
            0 <= q < bucket_ids(rs, n).len() ==> contains_id(rs, #[trigger] bucket_ids(rs, n)[q]),
{
    lemma_with_name_subset(rs, n);
    let f = with_name(rs, n);
    assert forall|a: int, b: int|
        #![trigger f[a].id, f[b].id]
        0 <= a < b < f.len() implies f[a].id < f[b].id by {
        assert(rec_present(rs, f[a]));
        assert(rec_present(rs, f[b]));
        let wa = rec_index(rs, f[a]);
        let wb = rec_index(rs, f[b]);
        assert(rs[wa] == f[a] && rs[wb] == f[b]);
        // order within the filter follows the order of the base: shown by
        // induction through the generic prefix argument below
        lemma_with_name_order(rs, n, a, b);
    }
    assert forall|q: int|
        0 <= q < bucket_ids(rs, n).len() implies contains_id(
        rs, #[trigger] bucket_ids(rs, n)[q],
    ) by {
        assert(bucket_ids(rs, n)[q] == f[q].id);
        assert(rec_present(rs, f[q]));
        let w = rec_index(rs, f[q]);
        assert(rs[w].id == f[q].id);
    }
}

/// Two positions of a name filter keep the identifier order of the base
/// sequence.
pub proof fn lemma_with_name_order(rs: Seq<StudentV>, n: Seq<char>, a: int, b: int)
    requires
        sorted_ids(rs),
        0 <= a < b < with_name(rs, n).len(),
    ensures
        with_name(rs, n)[a].id < with_name(rs, n)[b].id,
    decreases rs.len(),
{
    let p = |x: StudentV| x.name == n;
    let f = with_name(rs, n);
    if rs.len() > 0 {
        let rest = rs.drop_last();
        assert(sorted_ids(rest)) by {
            assert forall|c: int, d: int|
                #![trigger rest[c].id, rest[d].id]
                0 <= c < d < rest.len() implies rest[c].id < rest[d].id by {
                assert(rs[c].id < rs[d].id);
            }
        }
        rest.lemma_filter_push(rs.last(), p);
        assert(rest.push(rs.last()) =~= rs);
        if p(rs.last()) && b == f.len() - 1 {
            // the last element of the filter is the last matching record
            assert(f[b] == rs.last());
            lemma_with_name_subset(rest, n);
            assert(f[a] == with_name(rest, n)[a]);
            assert(rec_present(rest, with_name(rest, n)[a]));
            let w = rec_index(rest, with_name(rest, n)[a]);
            assert(rs[w] == f[a]);
            assert(rs[w].id < rs[rs.len() - 1].id);
        } else {
            lemma_with_name_order(rest, n, a, b);
        }
    }
}

/// Splitting a record sequence around an insertion point splits the records
/// bearing any name accordingly.
pub proof fn lemma_with_name_insert(rs: Seq<StudentV>, i: int, sv: StudentV, m: Seq<char>)
    requires
        0 <= i <= rs.len(),
    ensures
        sv.name == m ==> with_name(rs.insert(i, sv), m) == with_name(rs.take(i), m) + seq![sv]
            + with_name(rs.skip(i), m),
        sv.name != m ==> with_name(rs.insert(i, sv), m) == with_name(rs, m),
        with_name(rs, m) == with_name(rs.take(i), m) + with_name(rs.skip(i), m),
{
    let p = |x: StudentV| x.name == m;
    let pre = rs.take(i);
    let post = rs.skip(i);
    assert(rs =~= pre + post);
    assert(rs.insert(i, sv) =~= (pre + seq![sv]) + post);
    Seq::<StudentV>::filter_distributes_over_add(pre, post, p);
    Seq::<StudentV>::filter_distributes_over_add(pre + seq![sv], post, p);
    Seq::<StudentV>::filter_distributes_over_add(pre, seq![sv], p);
    lemma_with_name_singleton(sv, m);
    if sv.name == m {
        assert(with_name(rs.insert(i, sv), m) =~= with_name(pre, m) + seq![sv] + with_name(
            post, m,
        ));
    } else {
        assert(with_name(rs.insert(i, sv), m) =~= with_name(pre, m) + with_name(post, m));
    }
}

/// Removing a record keeps the identifiers strictly sorted.
pub proof fn lemma_sorted_remove(rs: Seq<StudentV>, i: int)
    requires
        sorted_ids(rs),
        0 <= i < rs.len(),
    ensures
        sorted_ids(rs.remove(i)),
{
    let rs1 = rs.remove(i);
    assert forall|a: int, b: int|
        #![trigger rs1[a].id, rs1[b].id]
        0 <= a < b < rs1.len() implies rs1[a].id < rs1[b].id by {
        let a0 = if a < i { a } else { a + 1 };
        let b0 = if b < i { b } else { b + 1 };
        assert(rs1[a] == rs[a0] && rs1[b] == rs[b0]);
        assert(rs[a0].id < rs[b0].id);
    }
}

/// When the identifiers of `rs` are strictly sorted and `id` occurs, its
/// index is the unique one carrying `id`.
pub proof fn lemma_index_of_id_unique(rs: Seq<StudentV>, id: u32)
    requires
        sorted_ids(rs),
        contains_id(rs, id),
    ensures
        0 <= index_of_id(rs, id) < rs.len(),
        rs[index_of_id(rs, id)].id == id,
        forall|j: int|
            0 <= j < rs.len() && j != index_of_id(rs, id) ==> (#[trigger] rs[j].id) != id,
{
    let w = index_of_id(rs, id);
    assert(0 <= w < rs.len() && rs[w].id == id);
    assert forall|j: int|
        0 <= j < rs.len() && j != w implies (#[trigger] rs[j].id) != id by {
        if j < w {
            assert(rs[j].id < rs[w].id);
        } else {
            assert(rs[w].id < rs[j].id);
        }
    }
}

/// Where a record's identifier sits in its name bucket, and what the bucket
/// must hold once the record at `i` is gone.
pub proof fn lemma_bucket_of_removed(rs0: Seq<StudentV>, bs0: Seq<BucketV>, i: int)
    requires
        sorted_ids(rs0),
        distinct_names(bs0),
        buckets_match(bs0, rs0),
        names_covered(rs0, bs0),
        0 <= i < rs0.len(),
    ensures
        has_bucket_for(bs0, rs0[i].name),
        ({
            let n = rs0[i].name;
            let bi = bucket_index_for(bs0, n);
            let o = bs0[bi].ids;
            &&& 0 <= bi < bs0.len() && bs0[bi].name == n
            &&& o.contains(rs0[i].id)
            &&& 0 <= first_index_of(o, rs0[i].id) < o.len()
            &&& o.remove(first_index_of(o, rs0[i].id)) == bucket_ids(rs0.remove(i), n)
            &&& (o.len() == 1 <==> with_name(rs0.remove(i), n).len() == 0)
        }),
{
    let n = rs0[i].name;
    let id = rs0[i].id;
    assert(has_bucket_for(bs0, n)) by {
        assert(has_bucket_for(bs0, rs0[i].name));
    }
    let bi = bucket_index_for(bs0, n);
    assert(0 <= bi < bs0.len() && bs0[bi].name == n);
    let o = bs0[bi].ids;
    assert(o == bucket_ids(rs0, n));
    lemma_with_name_decompose(rs0, i, n);
    let e_pre = with_name(rs0.take(i), n);
    let e_post = with_name(rs0.skip(i + 1), n);
    assert(with_name(rs0.remove(i), n) == e_pre + e_post);
    lemma_ids_of_add(e_pre + seq![rs0[i]], e_post);
    lemma_ids_of_add(e_pre, seq![rs0[i]]);
    lemma_ids_of_add(e_pre, e_post);
    let p = ids_of(e_pre).len() as int;
    assert(ids_of(seq![rs0[i]]) =~= seq![id]);
    assert(o =~= ids_of(e_pre) + seq![id] + ids_of(e_post));
    assert(o[p] == id);
    assert(o.contains(id)) by {
        assert(o[p] == id);
    }
    lemma_with_name_subset(rs0.take(i), n);
    assert forall|j: int| 0 <= j < p implies (#[trigger] o[j]) != id by {
        assert(o[j] == ids_of(e_pre)[j]);
        assert(ids_of(e_pre)[j] == e_pre[j].id);
        assert(rec_present(rs0.take(i), e_pre[j]));
        let w = rec_index(rs0.take(i), e_pre[j]);
        assert(rs0.take(i)[w] == e_pre[j]);
        assert(rs0[w] == e_pre[j]);
        assert(rs0[w].id < rs0[i].id);
    }
    lemma_first_index_of(o, id);
    let f = first_index_of(o, id);
    if f < p {
        assert(o[f] != id);
    }
    if f > p {
        assert(o[p] != id);
    }
    assert(f == p);
    assert(o.remove(p) =~= ids_of(e_pre) + ids_of(e_post));
    assert(bucket_ids(rs0.remove(i), n) =~= o.remove(p));
}

/// The name index stays well-formed when the record at `i` leaves and its
/// bucket is shrunk (or pruned, if the record was the bucket's last).
pub proof fn lemma_buckets_wf_after_remove(
    rs0: Seq<StudentV>,
    bs0: Seq<BucketV>,
    i: int,
    bs1: Seq<BucketV>,
)
    requires
        sorted_ids(rs0),
        distinct_names(bs0),
        buckets_match(bs0, rs0),
        buckets_nonempty(bs0),
        names_covered(rs0, bs0),
        0 <= i < rs0.len(),
        ({
            let n = rs0[i].name;
            let bi = bucket_index_for(bs0, n);
            let o = bs0[bi].ids;
            bs1 == if o.len() == 1 {
                bs0.remove(bi)
            } else {
                bs0.update(
                    bi,
                    (BucketV { name: n, ids: o.remove(first_index_of(o, rs0[i].id)) }),
                )
            }
        }),
    ensures
        buckets_match(bs1, rs0.remove(i)),
        distinct_names(bs1),
        buckets_nonempty(bs1),
        names_covered(rs0.remove(i), bs1),
{
    let n = rs0[i].name;
    let bi = bucket_index_for(bs0, n);
    let o = bs0[bi].ids;
    let rs1 = rs0.remove(i);
    let pruned = o.len() == 1;
    lemma_bucket_of_removed(rs0, bs0, i);
    let pn = |x: StudentV| x.name == n;
    assert(buckets_match(bs1, rs1)) by {
        assert forall|t: int| 0 <= t < bs1.len() implies (#[trigger] bs1[t].ids) == bucket_ids(
            rs1, bs1[t].name,
        ) by {
            let t0 = if pruned && t >= bi { t + 1 } else { t };
            assert(bs1[t].name == bs0[t0].name);
            let m = bs0[t0].name;
            if t0 != bi {
                assert(m != n);
                assert(bs0[t0].ids == bucket_ids(rs0, m));
                lemma_with_name_decompose(rs0, i, m);
                assert(with_name(rs1, m) == with_name(rs0, m));
                assert(bs1[t].ids == bs0[t0].ids);
            }
        }
    }
    assert(distinct_names(bs1)) by {
        assert forall|a: int, b: int|
            0 <= a < b < bs1.len() implies (#[trigger] bs1[a].name)
            != (#[trigger] bs1[b].name) by {
            let a0 = if pruned && a >= bi { a + 1 } else { a };
            let b0 = if pruned && b >= bi { b + 1 } else { b };
            assert(bs1[a].name == bs0[a0].name);
            assert(bs1[b].name == bs0[b0].name);
            assert(bs0[a0].name != bs0[b0].name);
        }
    }
    assert(buckets_nonempty(bs1)) by {
        assert forall|t: int| 0 <= t < bs1.len() implies (#[trigger] bs1[t].ids).len() > 0 by {
            let t0 = if pruned && t >= bi { t + 1 } else { t };
            if !pruned && t == bi {
                assert(bs1[t].ids.len() == o.len() - 1);
            } else {
                assert(bs1[t].ids == bs0[t0].ids);
            }
        }
    }
    assert(names_covered(rs1, bs1)) by {
        assert forall|j: int| 0 <= j < rs1.len() implies #[trigger] has_bucket_for(
            bs1, rs1[j].name,
        ) by {
            let j0 = if j < i { j } else { j + 1 };
            assert(rs1[j] == rs0[j0]);
            let m = rs0[j0].name;
            assert(has_bucket_for(bs0, m));
            let w = bucket_index_for(bs0, m);
            if pruned {
                if w == bi {
                    assert(m == n);
                    assert(pn(rs1[j]));
                    rs1.lemma_filter_contains(pn, j);
                    assert(with_name(rs1, n).len() > 0);
                    assert(false);
                } else {
                    let w1 = if w < bi { w } else { w - 1 };
                    assert(bs1[w1].name == bs0[w].name);
                }
            } else {
                assert(bs1[w].name == bs0[w].name);
            }
        }
    }
}

/// The name index stays well-formed when a record with a fresh identifier is
/// inserted at its sorted position and its identifier joins the bucket named
/// after it (created if absent).
pub proof fn lemma_buckets_wf_after_insert(
    rs1: Seq<StudentV>,
    bs1: Seq<BucketV>,
    i: int,
    sv: StudentV,
    bs2: Seq<BucketV>,
)
    requires
        sorted_ids(rs1),
        distinct_names(bs1),
        buckets_match(bs1, rs1),
        buckets_nonempty(bs1),
        names_covered(rs1, bs1),
        0 <= i <= rs1.len(),
        forall|j: int| 0 <= j < i ==> (#[trigger] rs1[j].id) < sv.id,
        forall|j: int| i <= j < rs1.len() ==> (#[trigger] rs1[j].id) > sv.id,
        bs2 == if has_bucket_for(bs1, sv.name) {
            bs1.update(
                bucket_index_for(bs1, sv.name),
                (BucketV {
                    name: sv.name,
                    ids: bs1[bucket_index_for(bs1, sv.name)].ids.insert(
                        count_lt(bs1[bucket_index_for(bs1, sv.name)].ids, sv.id),
                        sv.id,
                    ),
                }),
            )
        } else {
            bs1.push((BucketV { name: sv.name, ids: seq![sv.id] }))
        },
    ensures
        buckets_match(bs2, rs1.insert(i, sv)),
        distinct_names(bs2),
        buckets_nonempty(bs2),
        names_covered(rs1.insert(i, sv), bs2),
{
    let n = sv.name;
    let id = sv.id;
    let rs2 = rs1.insert(i, sv);
    lemma_with_name_insert(rs1, i, sv, n);
    let a = bucket_ids(rs1.take(i), n);
    let b = bucket_ids(rs1.skip(i), n);
    lemma_ids_of_add(with_name(rs1.take(i), n) + seq![sv], with_name(rs1.skip(i), n));
    lemma_ids_of_add(with_name(rs1.take(i), n), seq![sv]);
    lemma_ids_of_add(with_name(rs1.take(i), n), with_name(rs1.skip(i), n));
    assert(ids_of(seq![sv]) =~= seq![id]);
    assert(bucket_ids(rs2, n) =~= a + seq![id] + b);
    assert(bucket_ids(rs1, n) =~= a + b);
    // every identifier left of the insertion point is below the new one,
    // every identifier right of it above
    lemma_with_name_subset(rs1.take(i), n);
    assert forall|q: int| 0 <= q < a.len() implies (#[trigger] a[q]) < id by {
        let e = with_name(rs1.take(i), n)[q];
        assert(rec_present(rs1.take(i), e));
        let w = rec_index(rs1.take(i), e);
        assert(rs1[w] == e && 0 <= w < i);
    }
    lemma_with_name_subset(rs1.skip(i), n);
    assert forall|q: int| 0 <= q < b.len() implies (#[trigger] b[q]) > id by {
        let e = with_name(rs1.skip(i), n)[q];
        assert(rec_present(rs1.skip(i), e));
        let w = rec_index(rs1.skip(i), e);
        assert(rs1[w + i] == e);
    }
    lemma_count_lt_add(a, b, id);
    lemma_count_lt_uniform(a, id);
    lemma_count_lt_uniform(b, id);
    assert(count_lt(a + b, id) == a.len());
    if has_bucket_for(bs1, n) {
        let bi = bucket_index_for(bs1, n);
        assert(bs1[bi].ids == bucket_ids(rs1, n));
        assert(bs1[bi].ids.insert(count_lt(bs1[bi].ids, id), id) =~= a + seq![id] + b);
    } else {
        assert forall|j: int| 0 <= j < rs1.len() implies (#[trigger] rs1[j].name) != n by {
            if rs1[j].name == n {
                assert(has_bucket_for(bs1, rs1[j].name));
            }
        }
        lemma_with_name_empty(rs1, n);
        assert(bucket_ids(rs2, n) =~= seq![id]);
    }
    assert(buckets_match(bs2, rs2)) by {
        assert forall|t: int| 0 <= t < bs2.len() implies (#[trigger] bs2[t].ids) == bucket_ids(
            rs2, bs2[t].name,
        ) by {
            if t < bs1.len() && bs1[t].name != n {
                lemma_with_name_insert(rs1, i, sv, bs1[t].name);
                assert(bs2[t] == bs1[t]);
                assert(bs1[t].ids == bucket_ids(rs1, bs1[t].name));
            } else {
                assert(bs2[t].name == n && bs2[t].ids == bucket_ids(rs2, n));
            }
        }
    }
    assert(distinct_names(bs2)) by {
        assert forall|c: int, d: int|
            0 <= c < d < bs2.len() implies (#[trigger] bs2[c].name)
            != (#[trigger] bs2[d].name) by {
            if d < bs1.len() {
                assert(bs2[c].name == bs1[c].name && bs2[d].name == bs1[d].name);
            } else {
                assert(bs2[d].name == n);
                assert(bs2[c].name == bs1[c].name);
                if bs1[c].name == n {
                    assert(has_bucket_for(bs1, n));
                }
            }
        }
    }
    assert(buckets_nonempty(bs2)) by {
        assert forall|t: int| 0 <= t < bs2.len() implies (#[trigger] bs2[t].ids).len() > 0 by {
            if t < bs1.len() && bs1[t].name != n {
                assert(bs2[t].ids == bs1[t].ids);
            }
        }
    }
    assert(names_covered(rs2, bs2)) by {
        assert forall|j: int| 0 <= j < rs2.len() implies #[trigger] has_bucket_for(
            bs2, rs2[j].name,
        ) by {
            if j == i {
                if has_bucket_for(bs1, n) {
                    let bi = bucket_index_for(bs1, n);
                    assert(bs2[bi].name == n);
                } else {
                    assert(bs2[bs1.len() as int].name == n);
                }
            } else {
                let j0 = if j < i { j } else { j - 1 };
                assert(rs2[j] == rs1[j0]);
                assert(has_bucket_for(bs1, rs1[j0].name));
                let w = bucket_index_for(bs1, rs1[j0].name);
                assert(bs2[w].name == bs1[w].name);
            }
        }
    }
}

/// Overwriting a record's age and class in place, with its name kept, leaves
/// the whole name index correct as it stands.
pub proof fn lemma_buckets_wf_after_update_same_name(
    rs0: Seq<StudentV>,
    bs0: Seq<BucketV>,
    i: int,
    sv: StudentV,
)
    requires
        sorted_ids(rs0),
        distinct_names(bs0),
        buckets_match(bs0, rs0),
        buckets_nonempty(bs0),
        names_covered(rs0, bs0),
        0 <= i < rs0.len(),
        sv.id == rs0[i].id,
        sv.name == rs0[i].name,
    ensures
        buckets_match(bs0, rs0.update(i, sv)),
        names_covered(rs0.update(i, sv), bs0),
{
    let rs2 = rs0.update(i, sv);
    assert(buckets_match(bs0, rs2)) by {
        assert forall|t: int| 0 <= t < bs0.len() implies (#[trigger] bs0[t].ids) == bucket_ids(
            rs2, bs0[t].name,
        ) by {
            let m = bs0[t].name;
            lemma_with_name_decompose(rs0, i, m);
            lemma_with_name_update_decompose(rs0, i, sv, m);
            lemma_ids_of_add(
                with_name(rs0.take(i), m) + with_name(seq![rs0[i]], m),
                with_name(rs0.skip(i + 1), m),
            );
            lemma_ids_of_add(with_name(rs0.take(i), m), with_name(seq![rs0[i]], m));
            lemma_ids_of_add(
                with_name(rs0.take(i), m) + with_name(seq![sv], m),
                with_name(rs0.skip(i + 1), m),
            );
            lemma_ids_of_add(with_name(rs0.take(i), m), with_name(seq![sv], m));
            lemma_with_name_singleton(rs0[i], m);
            lemma_with_name_singleton(sv, m);
            assert(ids_of(with_name(seq![rs0[i]], m)) =~= ids_of(with_name(seq![sv], m)));
            assert(bucket_ids(rs2, m) =~= bucket_ids(rs0, m));
        }
    }
    assert(names_covered(rs2, bs0)) by {
        assert forall|j: int| 0 <= j < rs2.len() implies #[trigger] has_bucket_for(
            bs0, rs2[j].name,
        ) by {
            if j == i {
                assert(rs2[j].name == rs0[i].name);
                assert(has_bucket_for(bs0, rs0[i].name));
            } else {
                assert(rs2[j] == rs0[j]);
                assert(has_bucket_for(bs0, rs0[j].name));
            }
        }
    }
}

/// Splitting a record sequence around an updated position splits the records
/// bearing any name accordingly.
pub proof fn lemma_with_name_update_decompose(
    rs: Seq<StudentV>,
    i: int,
    sv: StudentV,
    m: Seq<char>,
)
    requires
        0 <= i < rs.len(),
    ensures
        with_name(rs.update(i, sv), m) == with_name(rs.take(i), m) + with_name(seq![sv], m)
            + with_name(rs.skip(i + 1), m),
{
    let p = |x: StudentV| x.name == m;
    let pre = rs.take(i);
    let post = rs.skip(i + 1);
    assert(rs.update(i, sv) =~= (pre + seq![sv]) + post);
    Seq::<StudentV>::filter_distributes_over_add(pre + seq![sv], post, p);
    Seq::<StudentV>::filter_distributes_over_add(pre, seq![sv], p);
}

/// The records of `rs` whose name is not `n`, in order.
pub open spec fn without_name(rs: Seq<StudentV>, n: Seq<char>) -> Seq<StudentV> {
    rs.filter(|sv: StudentV| sv.name != n)
}

/// A name splits a record sequence in two: the records bearing it and the
/// rest, nothing lost and nothing counted twice.
pub proof fn lemma_name_partition(rs: Seq<StudentV>, n: Seq<char>)
    ensures
        with_name(rs, n).len() + without_name(rs, n).len() == rs.len(),
        forall|q: int|
            0 <= q < without_name(rs, n).len() ==> #[trigger] rec_present(
                rs, without_name(rs, n)[q],
            ) && without_name(rs, n)[q].name != n,
    decreases rs.len(),
{
    let p = |x: StudentV| x.name == n;
    let np = |x: StudentV| x.name != n;
    if rs.len() == 0 {
        reveal(Seq::filter);
    } else {
        let rest = rs.drop_last();
        lemma_name_partition(rest, n);
        rest.lemma_filter_push(rs.last(), p);
        rest.lemma_filter_push(rs.last(), np);
        assert(rest.push(rs.last()) =~= rs);
        assert forall|q: int|
            0 <= q < without_name(rs, n).len() implies #[trigger] rec_present(
            rs, without_name(rs, n)[q],
        ) && without_name(rs, n)[q].name != n by {
            if q < without_name(rest, n).len() {
                assert(rec_present(rest, without_name(rest, n)[q]));
                let w = rec_index(rest, without_name(rest, n)[q]);
                assert(rs[w] == without_name(rs, n)[q]);
            } else {
                assert(without_name(rs, n)[q] == rs.last());
                assert(rs[rs.len() - 1] == rs.last());
            }
        }
    }
}

/// Filtering away one name leaves the records of every other name exactly as
/// they were.
pub proof fn lemma_without_name_keeps_others(rs: Seq<StudentV>, n: Seq<char>, m: Seq<char>)
    requires
        m != n,
    ensures
        with_name(without_name(rs, n), m) == with_name(rs, m),
    decreases rs.len(),
{
    let p = |x: StudentV| x.name == m;
    let np = |x: StudentV| x.name != n;
    if rs.len() == 0 {
        reveal(Seq::filter);
    } else {
        let rest = rs.drop_last();
        lemma_without_name_keeps_others(rest, n, m);
        rest.lemma_filter_push(rs.last(), np);
        rest.lemma_filter_push(rs.last(), p);
        assert(rest.push(rs.last()) =~= rs);
        if np(rs.last()) {
            without_name(rest, n).lemma_filter_push(rs.last(), p);
        } else {
            assert(rs.last().name == n);
            assert(!p(rs.last()));
        }
    }
}

/// Together the buckets hold one identifier per live record: the sum of the
/// bucket sizes is the number of records.
pub open spec fn sum_bucket_sizes(bs: Seq<BucketV>) -> int
    decreases bs.len(),
{
    if bs.len() == 0 {
        0
    } else {
        sum_bucket_sizes(bs.drop_last()) + bs.last().ids.len()
    }
}

/// The name index partitions the live identifiers: summing the bucket sizes
/// counts every record exactly once.
pub proof fn lemma_sum_buckets(rs: Seq<StudentV>, bs: Seq<BucketV>)
    requires
        distinct_names(bs),
        buckets_match(bs, rs),
        names_covered(rs, bs),
    ensures
        sum_bucket_sizes(bs) == rs.len(),
    decreases bs.len(),
{
    if bs.len() == 0 {
        if rs.len() > 0 {
            assert(has_bucket_for(bs, rs[0].name));
            let w = bucket_index_for(bs, rs[0].name);
            assert(false);
        }
    } else {
        let b = bs.last();
        let n = b.name;
        let front = bs.drop_last();
        let rest = without_name(rs, n);
        lemma_name_partition(rs, n);
        assert(b.ids == bucket_ids(rs, n)) by {
            assert(bs[bs.len() - 1].ids == bucket_ids(rs, bs[bs.len() - 1].name));
        }
        assert(b.ids.len() == with_name(rs, n).len());
        assert(distinct_names(front)) by {
            assert forall|i: int, j: int|
                0 <= i < j < front.len() implies (#[trigger] front[i].name)
                != (#[trigger] front[j].name) by {
                assert(bs[i].name != bs[j].name);
            }
        }
        assert(buckets_match(front, rest)) by {
            assert forall|i: int| 0 <= i < front.len() implies (#[trigger] front[i].ids)
                == bucket_ids(rest, front[i].name) by {
                assert(bs[i].ids == bucket_ids(rs, bs[i].name));
                assert(bs[i].name != n) by {
                    assert(bs[i].name != bs[bs.len() - 1].name);
                }
                lemma_without_name_keeps_others(rs, n, bs[i].name);
            }
        }
        assert(names_covered(rest, front)) by {
            assert forall|j: int| 0 <= j < rest.len() implies #[trigger] has_bucket_for(
                front, rest[j].name,
            ) by {
                assert(rec_present(rs, rest[j]));
                let w = rec_index(rs, rest[j]);
                assert(rs[w] == rest[j]);
                assert(has_bucket_for(bs, rs[w].name));
                let t = bucket_index_for(bs, rs[w].name);
                assert(bs[t].name == rest[j].name);
                assert(rest[j].name != n);
                assert(t != bs.len() - 1);
                assert(front[t].name == rest[j].name);
            }
        }
        lemma_sum_buckets(rest, front);
    }
}

/// The in-memory record store.
pub struct StudentStore {
    /// Primary store: every live record, in strictly ascending identifier
    /// order.
    pub by_id: Vec<Student>,
    /// Ordered identifier index: mirrors the identifiers of `by_id`.
    pub ids: Vec<u32>,
    /// Secondary name index.
    pub name_index: Vec<NameBucket>,
    /// The next identifier to allocate; strictly greater than every
    /// identifier ever handed out.
    pub next_id: u32,
}

impl StudentStore {
    /// The record sequence this store holds, in ascending identifier order.
    pub open spec fn records(self) -> Seq<StudentV> {
        self.by_id.deep_view()
    }

    /// The name-index buckets this store holds.
    pub open spec fn buckets(self) -> Seq<BucketV> {
        self.name_index.deep_view()
    }

    /// Well-formedness: the three structures agree, identifiers are strictly
    /// sorted, positive and below the allocator's watermark, and the name
    /// index partitions the live identifiers by name with no stale, missing
    /// or empty bucket.
    pub open spec fn wf(self) -> bool {
        &&& 1 <= self.next_id
        &&& self.ids@ == ids_of(self.records())
        &&& sorted_ids(self.records())
        &&& forall|i: int|
            0 <= i < self.records().len() ==> 1 <= (#[trigger] self.records()[i].id)
                < self.next_id
        &&& distinct_names(self.buckets())
        &&& buckets_match(self.buckets(), self.records())
        &&& buckets_nonempty(self.buckets())
        &&& names_covered(self.records(), self.buckets())
    }

    /// An empty store; the allocator starts at 1.
    pub fn new() -> (r: Self)
        ensures
            r.wf(),
            r.records() =~= Seq::<StudentV>::empty(),
            r.buckets() =~= Seq::<BucketV>::empty(),
            r.next_id == 1,
    {
        let r = StudentStore {
            by_id: Vec::new(),
            ids: Vec::new(),
            name_index: Vec::new(),
            next_id: 1,
        };
        proof {
            assert(r.ids@ =~= ids_of(r.records()));
        }
        r
    }

    /// Index of the record carrying `id`, if any.
    fn find_rec(&self, id: u32) -> (r: Option<usize>)
        ensures
            match r {
                Some(i) => i < self.records().len() && self.records()[i as int].id == id,
                None => !contains_id(self.records(), id),
            },
    {
        let n: usize = self.by_id.len();
        let mut i: usize = 0;
        while i < n
            invariant
                0 <= i <= n == self.records().len(),
                forall|j: int| 0 <= j < i ==> (#[trigger] self.records()[j].id) != id,
            decreases n - i,
        {
            if self.by_id[i].id == id {
                return Some(i);
            }
            i = i + 1;
        }
        None
    }

    /// Index of the bucket named `name`, if any.
    fn find_bucket(&self, name: &str) -> (r: Option<usize>)
        ensures
            match r {
                Some(i) => i < self.buckets().len() && self.buckets()[i as int].name == name@,
                None => forall|j: int|
                    0 <= j < self.buckets().len() ==> (#[trigger] self.buckets()[j].name)
                        != name@,
            },
    {
        let n: usize = self.name_index.len();
        let mut i: usize = 0;
        while i < n
            invariant
                0 <= i <= n == self.buckets().len(),
                forall|j: int| 0 <= j < i ==> (#[trigger] self.buckets()[j].name) != name@,
            decreases n - i,
        {
            if str_eq(self.name_index[i].name.as_str(), name) {
                return Some(i);
            }
            i = i + 1;
        }
        None
    }

    /// Create a record with a freshly allocated identifier and insert it into
    /// the primary store, the identifier index and the matching name bucket
    /// (creating the bucket if absent). Returns the new identifier.
    ///
    /// The allocator is finite: a caller must leave room for one more
    /// identifier, and allocation failure is treated as fatal at the
    /// boundary rather than wrapped around, which would break identifier
    /// uniqueness.
    pub fn add(&mut self, name: &str, age: u8, class_name: &str) -> (id: u32)
        requires
            old(self).wf(),
            old(self).next_id < u32::MAX,
        ensures
            final(self).wf(),
            id == old(self).next_id,
            final(self).next_id == old(self).next_id + 1,
            final(self).records() == old(self).records().push(
                (StudentV { id, name: name@, age, class_name: class_name@ }),
            ),
    {
        let id = self.next_id;
        self.next_id = self.next_id + 1;
        let student = Student {
            id,
            name: name.to_owned(),
            age,
            class_name: class_name.to_owned(),
        };
        let ghost sv = student@;
        let ghost rs0 = self.records();
        self.by_id.push(student);
        self.ids.push(id);
        proof {
            assert(self.records() =~= rs0.push(sv));
            lemma_ids_push(rs0, sv);
            assert(self.ids@ =~= ids_of(self.records()));
            assert(sorted_ids(self.records())) by {
                assert forall|i: int, j: int|
                    0 <= i < j < self.records().len() implies (#[trigger] self.records()[i].id)
                    < (#[trigger] self.records()[j].id) by {
                    if j == rs0.len() as int {
                        assert(rs0[i].id < id);
                    }
                }
            }
        }
        match self.find_bucket(name) {
            Some(bi) => {
                let ghost bs0 = self.buckets();
                let mut b = self.name_index.remove(bi);
                b.ids.push(id);
                self.name_index.insert(bi, b);
                proof {
                    assert(self.buckets() =~= bs0.update(
                        bi as int,
                        (BucketV { name: bs0[bi as int].name, ids: bs0[bi as int].ids.push(id) }),
                    ));
                    assert forall|i: int| 0 <= i < self.buckets().len() implies
                        (#[trigger] self.buckets()[i].ids) == bucket_ids(
                            self.records(), self.buckets()[i].name,
                        ) by {
                        lemma_bucket_ids_push(rs0, bs0[i].name, sv);
                        if i != bi as int {
                            assert(bs0[i].name != bs0[bi as int].name);
                        }
                    }
                    assert(names_covered(self.records(), self.buckets())) by {
                        assert forall|j: int| 0 <= j < self.records().len() implies
                            #[trigger] has_bucket_for(
                                self.buckets(), self.records()[j].name,
                            ) by {
                            if j < rs0.len() as int {
                                assert(self.records()[j] == rs0[j]);
                                assert(has_bucket_for(bs0, rs0[j].name));
                                let w = bucket_index_for(bs0, rs0[j].name);
                                assert(self.buckets()[w].name == self.records()[j].name);
                            } else {
                                assert(self.buckets()[bi as int].name == self.records()[j].name);
                            }
                        }
                    }
                    assert(self.wf());
                }
            },
            None => {
                let ghost bs0 = self.buckets();
                let mut fresh_ids: Vec<u32> = Vec::new();
                fresh_ids.push(id);
                let bucket = NameBucket { name: name.to_owned(), ids: fresh_ids };
                self.name_index.push(bucket);
                proof {
                    assert(self.buckets() =~= bs0.push(
                        (BucketV { name: name@, ids: seq![id] }),
                    ));
                    assert forall|j: int| 0 <= j < rs0.len() implies
                        (#[trigger] rs0[j].name) != name@ by {
                        if rs0[j].name == name@ {
                            assert(has_bucket_for(bs0, rs0[j].name));
                            let w = bucket_index_for(bs0, rs0[j].name);
                            assert(bs0[w].name != name@);
                        }
                    }
                    lemma_with_name_empty(rs0, name@);
                    assert forall|i: int| 0 <= i < self.buckets().len() implies
                        (#[trigger] self.buckets()[i].ids) == bucket_ids(
                            self.records(), self.buckets()[i].name,
                        ) by {
                        lemma_bucket_ids_push(rs0, self.buckets()[i].name, sv);
                        if i == bs0.len() as int {
                            assert(bucket_ids(rs0, name@) =~= Seq::<u32>::empty());
                            assert(self.buckets()[i].ids =~= bucket_ids(rs0, name@).push(id));
                        }
                    }
                    assert(names_covered(self.records(), self.buckets())) by {
                        assert forall|j: int| 0 <= j < self.records().len() implies
                            #[trigger] has_bucket_for(
                                self.buckets(), self.records()[j].name,
                            ) by {
                            if j < rs0.len() as int {
                                assert(self.records()[j] == rs0[j]);
                                assert(has_bucket_for(bs0, rs0[j].name));
                                let w = bucket_index_for(bs0, rs0[j].name);
                                assert(self.buckets()[w].name == self.records()[j].name);
                            } else {
                                assert(self.buckets()[bs0.len() as int].name
                                    == self.records()[j].name);
                            }
                        }
                    }
                    assert(distinct_names(self.buckets())) by {
                        assert forall|i: int, j: int|
                            0 <= i < j < self.buckets().len() implies
                            (#[trigger] self.buckets()[i].name)
                                != (#[trigger] self.buckets()[j].name) by {
                            if j == bs0.len() as int {
                                assert(self.buckets()[i].name == bs0[i].name);
                            }
                        }
                    }
                    assert(self.wf());
                }
            },
        }
        id
    }

    /// Delete the record carrying `id` from the primary store, the
    /// identifier index and its name bucket (pruning an emptied bucket).
    /// Returns whether a record was removed; an unknown identifier changes
    /// nothing. The identifier is never reallocated: the allocator's
    /// watermark stays where it was.
    #[verifier::rlimit(60)]
    pub fn remove(&mut self, id: u32) -> (r: bool)
        requires
            old(self).wf(),
        ensures
            final(self).wf(),
            final(self).next_id == old(self).next_id,
            r == contains_id(old(self).records(), id),
            r ==> final(self).records() == old(self).records().remove(
                index_of_id(old(self).records(), id),
            ),
            r ==> !contains_id(final(self).records(), id),
            !r ==> final(self).records() == old(self).records() && final(self).buckets() == old(
                self,
            ).buckets() && final(self).ids@ == old(self).ids@,
    {
        let found = self.find_rec(id);
        match found {
            None => false,
            Some(i) => {
                let ghost rs0 = self.records();
                let ghost bs0 = self.buckets();
                proof {
                    assert(contains_id(rs0, id)) by {
                        assert(rs0[i as int].id == id);
                    }
                    lemma_index_of_id_unique(rs0, id);
                    assert(index_of_id(rs0, id) == i as int);
                    assert(self.ids@.len() == rs0.len());
                }
                let removed = self.by_id.remove(i);
                self.ids.remove(i);
                let ghost rs1 = self.records();
                let ghost n = rs0[i as int].name;
                proof {
                    assert(removed@ == rs0[i as int]);
                    assert(rs1 =~= rs0.remove(i as int));
                    assert(self.ids@ =~= ids_of(rs1));
                    assert(sorted_ids(rs1)) by {
                        assert forall|a: int, b: int|
                            0 <= a < b < rs1.len() implies (#[trigger] rs1[a].id)
                            < (#[trigger] rs1[b].id) by {
                            let a0 = if a < i as int { a } else { a + 1 };
                            let b0 = if b < i as int { b } else { b + 1 };
                            assert(rs1[a] == rs0[a0] && rs1[b] == rs0[b0]);
                            assert(rs0[a0].id < rs0[b0].id);
                        }
                    }
                    assert forall|j: int| 0 <= j < rs1.len() implies 1 <= (#[trigger] rs1[j].id)
                        < self.next_id by {
                        let j0 = if j < i as int { j } else { j + 1 };
                        assert(rs1[j] == rs0[j0]);
                    }
                    assert forall|j: int| 0 <= j < rs1.len() implies (#[trigger] rs1[j].id)
                        != id by {
                        let j0 = if j < i as int { j } else { j + 1 };
                        assert(rs1[j] == rs0[j0]);
                        assert(rs0[j0].id != id);
                    }
                }
                proof {
                    lemma_bucket_of_removed(rs0, bs0, i as int);
                }
                self.remove_name_index(removed.name.as_str(), id);
                proof {
                    let bi = bucket_index_for(bs0, n);
                    let o = bs0[bi].ids;
                    assert(self.buckets() == if o.len() == 1 {
                        bs0.remove(bi)
                    } else {
                        bs0.update(
                            bi,
                            (BucketV { name: n, ids: o.remove(first_index_of(o, id)) }),
                        )
                    });
                    lemma_buckets_wf_after_remove(rs0, bs0, i as int, self.buckets());
                    assert(self.wf());
                }
                true
            },
        }
    }

    /// Remove `id` from the bucket named `name`, pruning the bucket when it
    /// becomes empty; a no-op when no such bucket exists or the bucket does
    /// not hold `id`. Touches the name index only: records, identifier index
    /// and allocator are untouched.
    pub fn remove_name_index(&mut self, name: &str, id: u32)
        requires
            distinct_names(old(self).buckets()),
        ensures
            final(self).records() == old(self).records(),
            final(self).ids@ == old(self).ids@,
            final(self).next_id == old(self).next_id,
            !has_bucket_for(old(self).buckets(), name@) ==> final(self).buckets() == old(
                self,
            ).buckets(),
            has_bucket_for(old(self).buckets(), name@) ==> ({
                let bi = bucket_index_for(old(self).buckets(), name@);
                let b = old(self).buckets()[bi];
                &&& !b.ids.contains(id) ==> final(self).buckets() == old(self).buckets()
                &&& b.ids.contains(id) ==> final(self).buckets() == if b.ids.len() == 1 {
                    old(self).buckets().remove(bi)
                } else {
                    old(self).buckets().update(
                        bi,
                        (BucketV { name: b.name, ids: b.ids.remove(first_index_of(b.ids, id)) }),
                    )
                }
            }),
    {
        let found = self.find_bucket(name);
        match found {
            None => {
                proof {
                    if has_bucket_for(self.buckets(), name@) {
                        let w = bucket_index_for(self.buckets(), name@);
                        assert(self.buckets()[w].name != name@);
                    }
                }
            },
            Some(bi) => {
                let ghost bs0 = self.buckets();
                proof {
                    assert(has_bucket_for(bs0, name@));
                    let w = bucket_index_for(bs0, name@);
                    assert(bs0[w].name == name@ && bs0[bi as int].name == name@);
                    if w != bi as int {
                        assert(bs0[w].name != bs0[bi as int].name);
                    }
                    assert(w == bi as int);
                }
                let mut b = self.name_index.remove(bi);
                match Self::find_id_pos(&b.ids, id) {
                    None => {
                        self.name_index.insert(bi, b);
                        proof {
                            assert(self.buckets() =~= bs0);
                        }
                    },
                    Some(k) => {
                        let ghost ids0 = b.ids@;
                        proof {
                            lemma_first_index_of(ids0, id);
                            assert(ids0.contains(id)) by {
                                assert(ids0[k as int] == id);
                            }
                            let f = first_index_of(ids0, id);
                            if f < k as int {
                                assert(ids0[f] != id);
                            }
                            if f > k as int {
                                assert(ids0[k as int] != id);
                            }
                            assert(f == k as int);
                        }
                        b.ids.remove(k);
                        if b.ids.len() == 0 {
                            proof {
                                assert(ids0.remove(k as int).len() == 0);
                                assert(ids0.len() == 1);
                                assert(self.buckets() =~= bs0.remove(bi as int));
                            }
                        } else {
                            self.name_index.insert(bi, b);
                            proof {
                                assert(ids0.len() != 1) by {
                                    assert(ids0.remove(k as int).len() == ids0.len() - 1);
                                }
                                assert(self.buckets() =~= bs0.update(
                                    bi as int,
                                    (BucketV { name: bs0[bi as int].name, ids: ids0.remove(k as int) }),
                                ));
                            }
                        }
                    },
                }
            },
        }
    }

    /// The default stable listing: every live record, in ascending
    /// identifier order.
    pub fn list_by_id(&self) -> (r: Vec<Student>)
        ensures
            r.deep_view() == self.records(),
    {
        let mut out: Vec<Student> = Vec::new();
        let n: usize = self.by_id.len();
        let mut i: usize = 0;
        while i < n
            invariant
                0 <= i <= n == self.records().len(),
                out.deep_view() == self.records().take(i as int),
            decreases n - i,
        {
            let ghost prev = out.deep_view();
            out.push(self.by_id[i].clone());
            proof {
                assert(out.deep_view() =~= prev.push(self.records()[i as int]));
                assert(prev.push(self.records()[i as int]) =~= self.records().take(i + 1));
            }
            i = i + 1;
        }
        proof {
            assert(self.records().take(n as int) =~= self.records());
        }
        out
    }

    /// Exact-match lookup through the name index: every record whose name
    /// equals the query, in ascending identifier order; empty when the name
    /// is unknown.
    pub fn search_by_name_exact(&self, name: &str) -> (r: Vec<Student>)
        requires
            self.wf(),
        ensures
            r.deep_view() == with_name(self.records(), name@),
    {
        let mut out: Vec<Student> = Vec::new();
        let found = self.find_bucket(name);
        match found {
            None => {
                proof {
                    assert forall|j: int| 0 <= j < self.records().len() implies
                        (#[trigger] self.records()[j].name) != name@ by {
                        if self.records()[j].name == name@ {
                            assert(has_bucket_for(self.buckets(), self.records()[j].name));
                            let w = bucket_index_for(self.buckets(), self.records()[j].name);
                            assert(self.buckets()[w].name != name@);
                        }
                    }
                    lemma_with_name_empty(self.records(), name@);
                    assert(out.deep_view() =~= with_name(self.records(), name@));
                }
                out
            },
            Some(bi) => {
                let ghost f = with_name(self.records(), name@);
                proof {
                    assert(self.buckets()[bi as int].ids == bucket_ids(self.records(), name@));
                    lemma_with_name_subset(self.records(), name@);
                }
                let m: usize = self.name_index[bi].ids.len();
                let mut k: usize = 0;
                while k < m
                    invariant
                        self.wf(),
                        0 <= k <= m,
                        bi < self.buckets().len(),
                        self.buckets()[bi as int].name == name@,
                        f == with_name(self.records(), name@),
                        m == f.len(),
                        self.buckets()[bi as int].ids == bucket_ids(self.records(), name@),
                        out.deep_view() == f.take(k as int),
                    decreases m - k,
                {
                    let idv = self.name_index[bi].ids[k];
                    proof {
                        assert(idv == ids_of(f)[k as int]);
                        assert(idv == f[k as int].id);
                        lemma_with_name_subset(self.records(), name@);
                        assert(rec_present(self.records(), f[k as int]));
                        let w = rec_index(self.records(), f[k as int]);
                        assert(self.records()[w] == f[k as int]);
                        assert(contains_id(self.records(), idv)) by {
                            assert(self.records()[w].id == idv);
                        }
                    }
                    let looked_up = self.find_rec(idv);
                    match looked_up {
                        Some(j) => {
                            proof {
                                let w = rec_index(self.records(), f[k as int]);
                                lemma_index_of_id_unique(self.records(), idv);
                                assert(self.records()[j as int].id == idv);
                                assert(self.records()[w].id == idv);
                                if w != j as int {
                                    assert(self.records()[w].id != idv
                                        || self.records()[j as int].id != idv) by {
                                        assert(sorted_ids(self.records()));
                                        if w < j as int {
                                            assert(self.records()[w].id
                                                < self.records()[j as int].id);
                                        } else {
                                            assert(self.records()[j as int].id
                                                < self.records()[w].id);
                                        }
                                    }
                                }
                                assert(w == j as int);
                                assert(self.records()[j as int] == f[k as int]);
                            }
                            let ghost prev = out.deep_view();
                            out.push(self.by_id[j].clone());
                            proof {
                                assert(out.deep_view() =~= prev.push(f[k as int]));
                                assert(prev.push(f[k as int]) =~= f.take(k + 1));
                            }
                        },
                        None => {
                            proof {
                                assert(false);
                            }
                        },
                    }
                    k = k + 1;
                }
                proof {
                    assert(f.take(m as int) =~= f);
                }
                out
            },
        }
    }

    /// Overwrite the name, age and class of the record carrying `id`,
    /// relocating the identifier from its old name bucket to the new one
    /// when the name changes (pruning an emptied bucket). Returns whether a
    /// record was found; an unknown identifier changes nothing. The
    /// identifier itself never changes.
    #[verifier::rlimit(60)]
    pub fn modify(&mut self, id: u32, name: &str, age: u8, class_name: &str) -> (r: bool)
        requires
            old(self).wf(),
        ensures
            final(self).wf(),
            final(self).next_id == old(self).next_id,
            r == contains_id(old(self).records(), id),
            r ==> final(self).records() == old(self).records().update(
                index_of_id(old(self).records(), id),
                (StudentV { id, name: name@, age, class_name: class_name@ }),
            ),
            !r ==> final(self).records() == old(self).records() && final(self).buckets() == old(
                self,
            ).buckets() && final(self).ids@ == old(self).ids@,
    {
        let found = self.find_rec(id);
        match found {
            None => false,
            Some(i) => {
                let ghost rs0 = self.records();
                let ghost bs0 = self.buckets();
                let ghost sv2 = StudentV { id, name: name@, age, class_name: class_name@ };
                proof {
                    assert(contains_id(rs0, id)) by {
                        assert(rs0[i as int].id == id);
                    }
                    lemma_index_of_id_unique(rs0, id);
                    assert(index_of_id(rs0, id) == i as int);
                }
                let same = str_eq(self.by_id[i].name.as_str(), name);
                if !same {
                    let old_name = self.by_id[i].name.clone();
                    let ghost rs1 = rs0.remove(i as int);
                    proof {
                        lemma_bucket_of_removed(rs0, bs0, i as int);
                        lemma_sorted_remove(rs0, i as int);
                    }
                    self.remove_name_index(old_name.as_str(), id);
                    let ghost bs1 = self.buckets();
                    proof {
                        let bi = bucket_index_for(bs0, rs0[i as int].name);
                        let o = bs0[bi].ids;
                        assert(bs1 == if o.len() == 1 {
                            bs0.remove(bi)
                        } else {
                            bs0.update(
                                bi,
                                (BucketV {
                                    name: rs0[i as int].name,
                                    ids: o.remove(first_index_of(o, id)),
                                }),
                            )
                        });
                        lemma_buckets_wf_after_remove(rs0, bs0, i as int, bs1);
                        assert forall|j: int| 0 <= j < rs1.len() implies (#[trigger] rs1[j].id)
                            != id by {
                            let j0 = if j < i as int { j } else { j + 1 };
                            assert(rs1[j] == rs0[j0]);
                            assert(rs0[j0].id != id);
                        }
                        if has_bucket_for(bs1, name@) {
                            let b2 = bs1[bucket_index_for(bs1, name@)];
                            assert(b2.ids == bucket_ids(rs1, name@));
                            lemma_with_name_sorted(rs1, name@);
                            assert(!b2.ids.contains(id)) by {
                                if b2.ids.contains(id) {
                                    let q = choose|q: int|
                                        0 <= q < b2.ids.len() && b2.ids[q] == id;
                                    assert(contains_id(rs1, b2.ids[q]));
                                    let w = index_of_id(rs1, id);
                                    assert(0 <= w < rs1.len() && rs1[w].id == id);
                                }
                            }
                        }
                    }
                    self.insert_name_index(name, id);
                    let updated = Student {
                        id,
                        name: name.to_owned(),
                        age,
                        class_name: class_name.to_owned(),
                    };
                    let _prev = self.by_id.remove(i);
                    self.by_id.insert(i, updated);
                    proof {
                        assert(self.records() =~= rs1.insert(i as int, sv2));
                        assert(rs1.insert(i as int, sv2) =~= rs0.update(i as int, sv2));
                        assert forall|j: int| 0 <= j < i implies (#[trigger] rs1[j].id)
                            < sv2.id by {
                            assert(rs1[j] == rs0[j]);
                        }
                        assert forall|j: int| i <= j < rs1.len() implies (#[trigger] rs1[j].id)
                            > sv2.id by {
                            assert(rs1[j] == rs0[j + 1]);
                        }
                        lemma_buckets_wf_after_insert(
                            rs1,
                            bs1,
                            i as int,
                            sv2,
                            self.buckets(),
                        );
                        assert(self.ids@ =~= ids_of(self.records()));
                        assert(sorted_ids(self.records())) by {
                            assert forall|a: int, b: int|
                                #![trigger self.records()[a].id, self.records()[b].id]
                                0 <= a < b < self.records().len() implies self.records()[a].id
                                < self.records()[b].id by {
                                assert(self.records()[a].id == rs0[a].id);
                                assert(self.records()[b].id == rs0[b].id);
                                assert(rs0[a].id < rs0[b].id);
                            }
                        }
                        assert forall|j: int| 0 <= j < self.records().len() implies 1
                            <= (#[trigger] self.records()[j].id) < self.next_id by {
                            assert(self.records()[j].id == rs0[j].id);
                        }
                        assert(self.wf());
                    }
                    true
                } else {
                    let updated = Student {
                        id,
                        name: name.to_owned(),
                        age,
                        class_name: class_name.to_owned(),
                    };
                    let _prev = self.by_id.remove(i);
                    self.by_id.insert(i, updated);
                    proof {
                        assert(self.records() =~= rs0.update(i as int, sv2));
                        assert(sv2.name == rs0[i as int].name);
                        lemma_buckets_wf_after_update_same_name(rs0, bs0, i as int, sv2);
                        assert(self.ids@ =~= ids_of(self.records()));
                        assert(sorted_ids(self.records())) by {
                            assert forall|a: int, b: int|
                                #![trigger self.records()[a].id, self.records()[b].id]
                                0 <= a < b < self.records().len() implies self.records()[a].id
                                < self.records()[b].id by {
                                assert(self.records()[a].id == rs0[a].id);
                                assert(self.records()[b].id == rs0[b].id);
                                assert(rs0[a].id < rs0[b].id);
                            }
                        }
                        assert forall|j: int| 0 <= j < self.records().len() implies 1
                            <= (#[trigger] self.records()[j].id) < self.next_id by {
                            assert(self.records()[j].id == rs0[j].id);
                        }
                        assert(self.wf());
                    }
                    true
                }
            },
        }
    }

    /// Insert `id` at its sorted position into the bucket named `name`,
    /// creating the bucket when absent. Touches the name index only.
    fn insert_name_index(&mut self, name: &str, id: u32)
        requires
            distinct_names(old(self).buckets()),
            has_bucket_for(old(self).buckets(), name@) ==> ({
                let b = old(self).buckets()[bucket_index_for(old(self).buckets(), name@)];
                u32_sorted(b.ids) && !b.ids.contains(id)
            }),
        ensures
            final(self).records() == old(self).records(),
            final(self).ids@ == old(self).ids@,
            final(self).next_id == old(self).next_id,
            final(self).buckets() == if has_bucket_for(old(self).buckets(), name@) {
                old(self).buckets().update(
                    bucket_index_for(old(self).buckets(), name@),
                    (BucketV {
                        name: name@,
                        ids: old(self).buckets()[bucket_index_for(
                            old(self).buckets(),
                            name@,
                        )].ids.insert(
                            count_lt(
                                old(self).buckets()[bucket_index_for(
                                    old(self).buckets(),
                                    name@,
                                )].ids,
                                id,
                            ),
                            id,
                        ),
                    }),
                )
            } else {
                old(self).buckets().push((BucketV { name: name@, ids: seq![id] }))
            },
    {
        let found = self.find_bucket(name);
        match found {
            Some(bi) => {
                let ghost bs0 = self.buckets();
                proof {
                    assert(has_bucket_for(bs0, name@));
                    let w = bucket_index_for(bs0, name@);
                    if w != bi as int {
                        assert(bs0[w].name != bs0[bi as int].name);
                    }
                    assert(w == bi as int);
                }
                let mut b = self.name_index.remove(bi);
                let ghost ids0 = b.ids@;
                let n_ids: usize = b.ids.len();
                let mut k: usize = 0;
                while k < n_ids && b.ids[k] < id
                    invariant
                        0 <= k <= n_ids == b.ids@.len(),
                        b.ids@ == ids0,
                        forall|j: int| 0 <= j < k ==> (#[trigger] ids0[j]) < id,
                    decreases n_ids - k,
                {
                    k = k + 1;
                }
                proof {
                    lemma_count_lt_sorted(ids0, id);
                    let c = count_lt(ids0, id);
                    if (k as int) < c {
                        assert(ids0[k as int] < id);
                        assert(k < n_ids);
                        assert(false);
                    }
                    if (k as int) > c {
                        assert(ids0[c] < id);
                        assert(ids0[c] >= id);
                    }
                    assert(k as int == c);
                }
                b.ids.insert(k, id);
                self.name_index.insert(bi, b);
                proof {
                    assert(self.buckets() =~= bs0.update(
                        bi as int,
                        (BucketV { name: name@, ids: ids0.insert(count_lt(ids0, id), id) }),
                    ));
                }
            },
            None => {
                let ghost bs0 = self.buckets();
                proof {
                    if has_bucket_for(bs0, name@) {
                        let w = bucket_index_for(bs0, name@);
                        assert(bs0[w].name != name@);
                    }
                }
                let mut fresh_ids: Vec<u32> = Vec::new();
                fresh_ids.push(id);
                self.name_index.push(NameBucket { name: name.to_owned(), ids: fresh_ids });
                proof {
                    assert(self.buckets() =~= bs0.push((BucketV { name: name@, ids: seq![id] })));
                }
            },
        }
    }

    /// Position of the first occurrence of `id` in a bucket's identifier
    /// vector, if any.
    fn find_id_pos(ids: &Vec<u32>, id: u32) -> (r: Option<usize>)
        ensures
            match r {
                Some(k) => k < ids@.len() && ids@[k as int] == id && forall|j: int|
                    0 <= j < k ==> (#[trigger] ids@[j]) != id,
                None => !ids@.contains(id),
            },
    {
        let n: usize = ids.len();
        let mut i: usize = 0;
        while i < n
            invariant
                0 <= i <= n == ids@.len(),
                forall|j: int| 0 <= j < i ==> (#[trigger] ids@[j]) != id,
            decreases n - i,
        {
            if ids[i] == id {
                return Some(i);
            }
            i = i + 1;
        }
        proof {
            assert(!ids@.contains(id)) by {
                if ids@.contains(id) {
                    let w = choose|j: int| 0 <= j < ids@.len() && ids@[j] == id;
                    assert(ids@[w] != id);
                }
            }
        }
        None
    }

    /// Constant-shape lookup by identifier: the record carrying `id`, or
    /// absence when `id` is not live.
    pub fn get_by_id(&self, id: u32) -> (r: Option<&Student>)
        requires
            self.wf(),
        ensures
            r matches Some(s) ==> contains_id(self.records(), id) && s@ == self.records()[
                index_of_id(self.records(), id)] && s@.id == id,
            r is None ==> !contains_id(self.records(), id),
    {
        match self.find_rec(id) {
            Some(i) => {
                let s = &self.by_id[i];
                proof {
                    let w = index_of_id(self.records(), id);
                    assert(0 <= w < self.records().len() && self.records()[w].id == id);
                    assert(w == i as int);
                }
                Some(s)
            },
            None => None,
        }
    }
}

/// Index consistency: in every well-formed store the primary store, the
/// ordered identifier index and the name index account for exactly the same
/// records — the identifier index has one entry per record, and the bucket
/// sizes sum to the record count.
pub proof fn lemma_index_consistency(s: StudentStore)
    requires
        s.wf(),
    ensures
        s.ids@.len() == s.records().len(),
        sum_bucket_sizes(s.buckets()) == s.records().len(),
{
    lemma_sum_buckets(s.records(), s.buckets());
}

/// Round trip: after `add` returns identifier `k`, looking `k` up finds a
/// record holding exactly the fields that were added. Together with the
/// contract of `get_by_id`, which returns the record at `k`'s index, the
/// added record reads back unchanged.
pub proof fn lemma_add_get_round_trip(
    pre: StudentStore,
    post: StudentStore,
    name: Seq<char>,
    age: u8,
    class_name: Seq<char>,
    k: u32,
)
    requires
        pre.wf(),
        k == pre.next_id,
        post.records() == pre.records().push((StudentV { id: k, name, age, class_name })),
    ensures
        contains_id(post.records(), k),
        post.records()[index_of_id(post.records(), k)] == (StudentV {
            id: k,
            name,
            age,
            class_name,
        }),
{
    let rs = post.records();
    let last = rs.len() - 1;
    assert(rs[last].id == k);
    assert(contains_id(rs, k)) by {
        assert(rs[last].id == k);
    }
    assert(sorted_ids(rs)) by {
        assert forall|i: int, j: int|
            #![trigger rs[i].id, rs[j].id]
            0 <= i < j < rs.len() implies rs[i].id < rs[j].id by {
            if j == last {
                assert(pre.records()[i].id < k);
            } else {
                assert(pre.records()[i].id < pre.records()[j].id);
            }
        }
    }
    lemma_index_of_id_unique(rs, k);
    let w = index_of_id(rs, k);
    if w != last {
        assert(rs[w].id != k);
    }
}

/// Deletion finality, allocator half: an identifier once allocated sits
/// below the allocator's watermark, the watermark never moves down, and
/// `add` returns exactly the watermark — so no later `add`, on any state the
/// store can reach, returns a retired identifier again. (The lookup half is
/// the `remove` contract itself: after a successful `remove(k)` the records
/// no longer contain `k`.)
pub proof fn lemma_retired_id_never_returned(s: StudentStore, t: StudentStore, k: u32)
    requires
        k < s.next_id,
        s.next_id <= t.next_id,
    ensures
        t.next_id != k,
{
}

/// Rename relocation: overwriting a record under `k` from name `n1` to a
/// different name `n2` removes `k` from the records found under `n1` and
/// makes it appear among those found under `n2`. Together with the contract
/// of `search_by_name_exact`, which returns exactly the records bearing a
/// name, a renamed record moves between the two result lists.
pub proof fn lemma_rename_relocates(
    pre: StudentStore,
    post: StudentStore,
    k: u32,
    n1: Seq<char>,
    n2: Seq<char>,
    age: u8,
    class_name: Seq<char>,
)
    requires
        pre.wf(),
        contains_id(pre.records(), k),
        pre.records()[index_of_id(pre.records(), k)].name == n1,
        n1 != n2,
        post.records() == pre.records().update(
            index_of_id(pre.records(), k),
            (StudentV { id: k, name: n2, age, class_name }),
        ),
    ensures
        forall|q: int|
            0 <= q < with_name(post.records(), n1).len() ==> (#[trigger] with_name(
                post.records(), n1,
            )[q].id) != k,
        exists|q: int|
            0 <= q < with_name(post.records(), n2).len() && (#[trigger] with_name(
                post.records(), n2,
            )[q].id) == k,
{
    let rs0 = pre.records();
    lemma_index_of_id_unique(rs0, k);
    let i = index_of_id(rs0, k);
    let sv = StudentV { id: k, name: n2, age, class_name };
    lemma_with_name_update_decompose(rs0, i, sv, n1);
    lemma_with_name_update_decompose(rs0, i, sv, n2);
    lemma_with_name_singleton(sv, n1);
    lemma_with_name_singleton(sv, n2);
    let rs2 = post.records();
    // no record found under the old name carries k
    assert forall|q: int|
        0 <= q < with_name(rs2, n1).len() implies (#[trigger] with_name(rs2, n1)[q].id)
        != k by {
        assert(with_name(rs2, n1) == with_name(rs0.take(i), n1) + with_name(
            rs0.skip(i + 1), n1,
        ));
        let a = with_name(rs0.take(i), n1);
        if q < a.len() {
            lemma_with_name_subset(rs0.take(i), n1);
            assert(rec_present(rs0.take(i), a[q]));
            let w = rec_index(rs0.take(i), a[q]);
            assert(rs0[w] == a[q]);
            assert(rs0[w].id != k);
        } else {
            let b = with_name(rs0.skip(i + 1), n1);
            lemma_with_name_subset(rs0.skip(i + 1), n1);
            assert(rec_present(rs0.skip(i + 1), b[q - a.len()]));
            let w = rec_index(rs0.skip(i + 1), b[q - a.len()]);
            assert(rs0[w + i + 1] == b[q - a.len()]);
            assert(rs0[w + i + 1].id != k);
        }
    }
    // the record found under the new name at the split position carries k
    let a2 = with_name(rs0.take(i), n2);
    assert(with_name(rs2, n2) == a2 + seq![sv] + with_name(rs0.skip(i + 1), n2));
    assert(with_name(rs2, n2)[a2.len() as int] == sv);
    assert(with_name(rs2, n2)[a2.len() as int].id == k);
}

/// Idempotent listing: the listing is a function of the store's state alone,
/// so two listings with no mutation between them are identical. The contract
/// of `list_by_id` pins each result to `records()`; this spells out that the
/// two results are therefore equal.
pub proof fn lemma_list_idempotent(s: StudentStore, r1: Seq<StudentV>, r2: Seq<StudentV>)
    requires
        r1 == s.records(),
        r2 == s.records(),
    ensures
        r1 == r2,
{
}

} // verus!
