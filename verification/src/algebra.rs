//! Laws of the engine's stages: what the join, the filter, the projection
//! and the comparison of scalars have in common with their textbook
//! counterparts.

use crate::database::RowModel;
use crate::engine::{
    column_of, compare, id_integer, join_rows, kept, matches_of, pair_matches, project, scan,
    test_holds, Record,
};
use crate::grammar::{Comparison, Scalar, ValueTestModel};
use crate::text::qualified;
use vstd::prelude::*;

verus! {

/// Of an integer and a text no comparison holds, whichever comes first:
/// not even "not equal".
pub proof fn lemma_mixed_comparison_fails(n: i64, t: Seq<char>, comparison: Comparison)
    ensures
        !compare(Scalar::Integer(n), comparison, Scalar::Text(t)),
        !compare(Scalar::Text(t), comparison, Scalar::Integer(n)),
{
}

/// The integer that stands for an id: the id itself where it fits in 63
/// bits, and the id less 2^64 where it fits in 64 bits but not in 63.
pub proof fn lemma_id_integer(id: u128)
    ensures
        id <= 0x7fff_ffff_ffff_ffff ==> id_integer(id) == id,
        0x7fff_ffff_ffff_ffff < id <= 0xffff_ffff_ffff_ffff ==> id_integer(id) == id
            - 0x1_0000_0000_0000_0000,
{
    assert(0x7fff_ffff_ffff_ffffu128 < id && id <= 0xffff_ffff_ffff_ffffu128 ==> (id as i64) as i128
        == (id as i128) - 0x1_0000_0000_0000_0000i128) by (bit_vector);
}

/// Every key of a row that comes from a table is qualified by the name of
/// that table: it is `table.column` for a column of the stored row, or
/// `table.id`.
pub proof fn lemma_scan_keys(table: Seq<char>, rows: Seq<RowModel>, i: int, key: Seq<char>)
    requires
        0 <= i < rows.len(),
        scan(table, rows)[i].contains_key(key),
    ensures
        key == qualified(table, column_of(table, key)),
        column_of(table, key) == "id"@ || rows[i].columns.contains_key(column_of(table, key)),
{
}

/// A joined row holds the keys of the two rows that it is made of, and
/// no others.
pub proof fn lemma_joined_keys(left: Record, right: Record, key: Seq<char>)
    ensures
        left.union_prefer_right(right).contains_key(key) <==> left.contains_key(key)
            || right.contains_key(key),
        right.contains_key(key) ==> left.union_prefer_right(right)[key] == right[key],
        left.contains_key(key) && !right.contains_key(key) ==> left.union_prefer_right(right)[key]
            == left[key],
{
}

/// Projecting a projected relation on the same keys changes nothing.
pub proof fn lemma_project_idempotent(rows: Seq<Record>, keys: Set<Seq<char>>)
    ensures
        project(project(rows, keys), keys) == project(rows, keys),
{
    let once = project(rows, keys);
    let twice = project(once, keys);
    assert forall|i: int| 0 <= i < rows.len() implies twice[i] == once[i] by {
        assert(rows[i].restrict(keys).restrict(keys) =~= rows[i].restrict(keys));
    }
    assert(twice =~= once);
}

/// A projected row holds the selected keys that the row held, with the
/// scalars that it had under them, and nothing else.
pub proof fn lemma_project_rows(rows: Seq<Record>, keys: Set<Seq<char>>, i: int)
    requires
        0 <= i < rows.len(),
    ensures
        project(rows, keys).len() == rows.len(),
        forall|k: Seq<char>|
            project(rows, keys)[i].contains_key(k) <==> keys.contains(k) && rows[i].contains_key(k),
        forall|k: Seq<char>|
            project(rows, keys)[i].contains_key(k) ==> project(rows, keys)[i][k] == rows[i][k],
{
}

/// `a` comes before `b`: by the left row, then by the right row.
pub open spec fn pair_before(a: (int, int), b: (int, int)) -> bool {
    a.0 < b.0 || (a.0 == b.0 && a.1 < b.1)
}

/// The pairs of a left and a right row of which the predicate holds, by
/// the indices of the two rows.
pub open spec fn matching_pairs(lefts: Seq<Record>, rights: Seq<Record>, on: ValueTestModel) -> Set<
    (int, int),
> {
    Set::new(
        |p: (int, int)|
            0 <= p.0 < lefts.len() && 0 <= p.1 < rights.len() && pair_matches(
                lefts[p.0],
                rights[p.1],
                on,
            ),
    )
}

/// The right rows that the left row `i` matches, by their indices, in
/// their order.
pub open spec fn row_pairs(i: int, left: Record, rights: Seq<Record>, on: ValueTestModel) -> Seq<
    (int, int),
>
    decreases rights.len(),
{
    if rights.len() == 0 {
        Seq::empty()
    } else {
        let before = row_pairs(i, left, rights.drop_last(), on);
        if pair_matches(left, rights.last(), on) {
            before.push((i, rights.len() - 1))
        } else {
            before
        }
    }
}

/// The matching pairs in the order of the join: by the left row, then by
/// the right row.
pub open spec fn join_pairs(lefts: Seq<Record>, rights: Seq<Record>, on: ValueTestModel) -> Seq<
    (int, int),
>
    decreases lefts.len(),
{
    if lefts.len() == 0 {
        Seq::empty()
    } else {
        join_pairs(lefts.drop_last(), rights, on) + row_pairs(
            lefts.len() - 1,
            lefts.last(),
            rights,
            on,
        )
    }
}

/// What a left row gives in a join, pair by pair.
pub proof fn lemma_row_pairs(i: int, left: Record, rights: Seq<Record>, on: ValueTestModel)
    ensures
        row_pairs(i, left, rights, on).len() == matches_of(left, rights, on).len(),
        forall|t: int|
            0 <= t < row_pairs(i, left, rights, on).len() ==> {
                let p = #[trigger] row_pairs(i, left, rights, on)[t];
                &&& p.0 == i
                &&& 0 <= p.1 < rights.len()
                &&& pair_matches(left, rights[p.1], on)
                &&& matches_of(left, rights, on)[t] == left.union_prefer_right(rights[p.1])
            },
        forall|s: int, t: int|
            0 <= s < t < row_pairs(i, left, rights, on).len() ==> (#[trigger] row_pairs(
                i,
                left,
                rights,
                on,
            )[s]).1 < (#[trigger] row_pairs(i, left, rights, on)[t]).1,
        forall|j: int|
            0 <= j < rights.len() && pair_matches(left, #[trigger] rights[j], on) ==> row_pairs(
                i,
                left,
                rights,
                on,
            ).contains((i, j)),
    decreases rights.len(),
{
    let ps = row_pairs(i, left, rights, on);
    if rights.len() > 0 {
        let front = rights.drop_last();
        let before = row_pairs(i, left, front, on);
        lemma_row_pairs(i, left, front, on);
        assert forall|t: int| 0 <= t < ps.len() implies {
            let p = #[trigger] ps[t];
            &&& p.0 == i
            &&& 0 <= p.1 < rights.len()
            &&& pair_matches(left, rights[p.1], on)
            &&& matches_of(left, rights, on)[t] == left.union_prefer_right(rights[p.1])
        } by {
            if t < before.len() {
                assert(ps[t] == before[t]);
                assert(rights[before[t].1] == front[before[t].1]);
            }
        }
        assert forall|s: int, t: int| 0 <= s < t < ps.len() implies (#[trigger] ps[s]).1 < (
        #[trigger] ps[t]).1 by {
            assert(ps[s] == before[s]);
            if t < before.len() {
                assert(ps[t] == before[t]);
            }
        }
        assert forall|j: int|
            0 <= j < rights.len() && pair_matches(left, #[trigger] rights[j], on) implies ps.contains(
            (i, j),
        ) by {
            if j < front.len() {
                assert(front[j] == rights[j]);
                let t = choose|t: int| 0 <= t < before.len() && before[t] == (i, j);
                assert(ps[t] == (i, j));
            } else {
                assert(ps[ps.len() - 1] == (i, j));
            }
        }
    }
}

/// A left row that matches no right row gives no row.
pub proof fn lemma_no_match_no_row(left: Record, rights: Seq<Record>, on: ValueTestModel)
    requires
        forall|j: int| 0 <= j < rights.len() ==> !pair_matches(left, #[trigger] rights[j], on),
    ensures
        matches_of(left, rights, on).len() == 0,
    decreases rights.len(),
{
    if rights.len() > 0 {
        assert(!pair_matches(left, rights[rights.len() - 1], on));
        assert forall|j: int| 0 <= j < rights.drop_last().len() implies !pair_matches(
            left,
            #[trigger] rights.drop_last()[j],
            on,
        ) by {
            assert(rights.drop_last()[j] == rights[j]);
        }
        lemma_no_match_no_row(left, rights.drop_last(), on);
    }
}

/// The join, pair by pair: its rows are the matching pairs merged, in the
/// order of the pairs, and every matching pair gives one.
pub proof fn lemma_join_pairs(lefts: Seq<Record>, rights: Seq<Record>, on: ValueTestModel)
    ensures
        join_pairs(lefts, rights, on).len() == join_rows(lefts, rights, on).len(),
        forall|t: int|
            0 <= t < join_pairs(lefts, rights, on).len() ==> {
                let p = #[trigger] join_pairs(lefts, rights, on)[t];
                &&& matching_pairs(lefts, rights, on).contains(p)
                &&& join_rows(lefts, rights, on)[t] == lefts[p.0].union_prefer_right(rights[p.1])
            },
        forall|s: int, t: int|
            0 <= s < t < join_pairs(lefts, rights, on).len() ==> pair_before(
                #[trigger] join_pairs(lefts, rights, on)[s],
                #[trigger] join_pairs(lefts, rights, on)[t],
            ),
        forall|p: (int, int)|
            matching_pairs(lefts, rights, on).contains(p) ==> join_pairs(lefts, rights, on).contains(
                p,
            ),
    decreases lefts.len(),
{
    let ps = join_pairs(lefts, rights, on);
    let js = join_rows(lefts, rights, on);
    if lefts.len() > 0 {
        let front = lefts.drop_last();
        let last = lefts.len() - 1;
        let before = join_pairs(front, rights, on);
        let here = row_pairs(last, lefts.last(), rights, on);
        lemma_join_pairs(front, rights, on);
        lemma_row_pairs(last, lefts.last(), rights, on);
        assert forall|t: int| 0 <= t < ps.len() implies {
            let p = #[trigger] ps[t];
            &&& matching_pairs(lefts, rights, on).contains(p)
            &&& js[t] == lefts[p.0].union_prefer_right(rights[p.1])
        } by {
            if t < before.len() {
                assert(ps[t] == before[t]);
                assert(matching_pairs(front, rights, on).contains(before[t]));
                assert(front[before[t].0] == lefts[before[t].0]);
            } else {
                assert(ps[t] == here[t - before.len()]);
            }
        }
        assert forall|s: int, t: int| 0 <= s < t < ps.len() implies pair_before(
            #[trigger] ps[s],
            #[trigger] ps[t],
        ) by {
            if t < before.len() {
                assert(ps[s] == before[s] && ps[t] == before[t]);
            } else if s < before.len() {
                assert(ps[s] == before[s]);
                assert(ps[t] == here[t - before.len()]);
                assert(matching_pairs(front, rights, on).contains(before[s]));
            } else {
                assert(ps[s] == here[s - before.len()]);
                assert(ps[t] == here[t - before.len()]);
            }
        }
        assert forall|p: (int, int)| matching_pairs(lefts, rights, on).contains(p) implies ps.contains(
            p,
        ) by {
            if p.0 < last {
                assert(front[p.0] == lefts[p.0]);
                assert(matching_pairs(front, rights, on).contains(p));
                let t = choose|t: int| 0 <= t < before.len() && before[t] == p;
                assert(ps[t] == p);
            } else {
                assert(here.contains((last, p.1)));
                let t = choose|t: int| 0 <= t < here.len() && here[t] == p;
                assert(ps[before.len() + t] == p);
            }
        }
    }
}

/// A join of `m` and `n` rows on a predicate that holds of exactly `k` of
/// their pairs has exactly `k` rows.
pub proof fn lemma_join_size(lefts: Seq<Record>, rights: Seq<Record>, on: ValueTestModel)
    ensures
        matching_pairs(lefts, rights, on).finite(),
        join_rows(lefts, rights, on).len() == matching_pairs(lefts, rights, on).len(),
{
    let ps = join_pairs(lefts, rights, on);
    lemma_join_pairs(lefts, rights, on);
    assert(ps.no_duplicates()) by {
        assert forall|s: int, t: int| 0 <= s < ps.len() && 0 <= t < ps.len() && s != t implies ps[s]
            != ps[t] by {
            if s < t {
                assert(pair_before(ps[s], ps[t]));
            } else {
                assert(pair_before(ps[t], ps[s]));
            }
        }
    }
    assert(ps.to_set() =~= matching_pairs(lefts, rights, on)) by {
        assert forall|p: (int, int)| ps.to_set().contains(p) <==> matching_pairs(
            lefts,
            rights,
            on,
        ).contains(p) by {
            if ps.contains(p) {
                let t = choose|t: int| 0 <= t < ps.len() && ps[t] == p;
                assert(matching_pairs(lefts, rights, on).contains(ps[t]));
            }
        }
    }
    ps.unique_seq_to_set();
    vstd::seq_lib::seq_to_set_is_finite(ps);
}

/// The rows that a filter keeps, by their indices, in their order.
pub open spec fn kept_indices(rows: Seq<Record>, test: ValueTestModel) -> Seq<int>
    decreases rows.len(),
{
    if rows.len() == 0 {
        Seq::empty()
    } else if test_holds(rows.last(), test) {
        kept_indices(rows.drop_last(), test).push(rows.len() - 1)
    } else {
        kept_indices(rows.drop_last(), test)
    }
}

/// A filter never reorders: the rows that it keeps are the rows of which
/// the predicate holds, all of them, in the order in which they stood.
pub proof fn lemma_filter_keeps_order(rows: Seq<Record>, test: ValueTestModel)
    ensures
        kept_indices(rows, test).len() == kept(rows, test).len(),
        forall|t: int|
            0 <= t < kept_indices(rows, test).len() ==> {
                let i = #[trigger] kept_indices(rows, test)[t];
                &&& 0 <= i < rows.len()
                &&& test_holds(rows[i], test)
                &&& kept(rows, test)[t] == rows[i]
            },
        forall|s: int, t: int|
            0 <= s < t < kept_indices(rows, test).len() ==> (#[trigger] kept_indices(rows, test)[s])
                < (#[trigger] kept_indices(rows, test)[t]),
        forall|i: int|
            0 <= i < rows.len() && test_holds(#[trigger] rows[i], test) ==> kept_indices(
                rows,
                test,
            ).contains(i),
    decreases rows.len(),
{
    let indices = kept_indices(rows, test);
    if rows.len() > 0 {
        let front = rows.drop_last();
        let before = kept_indices(front, test);
        lemma_filter_keeps_order(front, test);
        assert forall|t: int| 0 <= t < indices.len() implies {
            let i = #[trigger] indices[t];
            &&& 0 <= i < rows.len()
            &&& test_holds(rows[i], test)
            &&& kept(rows, test)[t] == rows[i]
        } by {
            if t < before.len() {
                assert(indices[t] == before[t]);
                assert(front[before[t]] == rows[before[t]]);
            }
        }
        assert forall|s: int, t: int| 0 <= s < t < indices.len() implies (#[trigger] indices[s]) < (
        #[trigger] indices[t]) by {
            assert(indices[s] == before[s]);
            if t < before.len() {
                assert(indices[t] == before[t]);
            }
        }
        assert forall|i: int| 0 <= i < rows.len() && test_holds(#[trigger] rows[i], test) implies indices.contains(
        i) by {
            if i < front.len() {
                assert(front[i] == rows[i]);
                let t = choose|t: int| 0 <= t < before.len() && before[t] == i;
                assert(indices[t] == i);
            } else {
                assert(indices[indices.len() - 1] == i);
            }
        }
    }
}

} // verus!
