//! Laws relating the submission protocol to the matrix projection, proved
//! once and for all over the spec functions that the operations' own
//! contracts use: `ratings_without` and `new_rows` describe the rating set
//! a successful submission leaves behind, and `cell_value` describes the
//! assembled matrix.

use vstd::prelude::*;
use crate::matrix::cell_value;
use crate::payload::pairwise_distinct_codes;
use crate::store::{
    courses_wf, find_course, lemma_find_course_props, one_row_per_pair, ratings_without, Course,
    Rating,
};
use crate::submit::{all_codes_resolve, new_rows};

verus! {

/// A sequence without any row matching the pair has cell value zero.
proof fn lemma_cell_value_no_match(ratings: Seq<Rating>, s: int, c: int)
    requires
        forall|k: int| 0 <= k < ratings.len()
            ==> !((#[trigger] ratings[k]).student == s && ratings[k].course == c),
    ensures
        cell_value(ratings, s, c) == 0,
    decreases ratings.len(),
{
    if ratings.len() > 0 {
        let prefix = ratings.drop_last();
        assert(forall|k: int| 0 <= k < prefix.len() ==> prefix[k] == ratings[k]);
        lemma_cell_value_no_match(prefix, s, c);
    }
}

/// The cell value is the rating of the last row matching the pair.
proof fn lemma_cell_value_at(ratings: Seq<Rating>, s: int, c: int, k: int)
    requires
        0 <= k < ratings.len(),
        ratings[k].student == s,
        ratings[k].course == c,
        forall|l: int| k < l < ratings.len()
            ==> !((#[trigger] ratings[l]).student == s && ratings[l].course == c),
    ensures
        cell_value(ratings, s, c) == ratings[k].rating,
    decreases ratings.len(),
{
    if k < ratings.len() - 1 {
        let prefix = ratings.drop_last();
        assert(forall|k2: int| 0 <= k2 < prefix.len() ==> prefix[k2] == ratings[k2]);
        lemma_cell_value_at(prefix, s, c, k);
    }
}

/// The cell value reads only the student, course and rating of each row,
/// never its row id.
proof fn lemma_cell_value_ignores_ids(a: Seq<Rating>, b: Seq<Rating>, s: int, c: int)
    requires
        a.len() == b.len(),
        forall|k: int| 0 <= k < a.len()
            ==> (#[trigger] a[k]).student == (#[trigger] b[k]).student && a[k].course
                == b[k].course && a[k].rating == b[k].rating,
    ensures
        cell_value(a, s, c) == cell_value(b, s, c),
    decreases a.len(),
{
    if a.len() > 0 {
        assert(forall|k: int| 0 <= k < a.drop_last().len()
            ==> a.drop_last()[k] == a[k] && b.drop_last()[k] == b[k]);
        lemma_cell_value_ignores_ids(a.drop_last(), b.drop_last(), s, c);
    }
}

/// A filter keeps a sequence whose rows all pass it, and empties one whose
/// rows all fail it.
proof fn lemma_filter_trivial(ratings: Seq<Rating>, pred: spec_fn(Rating) -> bool)
    ensures
        (forall|k: int| 0 <= k < ratings.len() ==> pred(#[trigger] ratings[k]))
            ==> ratings.filter(pred) == ratings,
        (forall|k: int| 0 <= k < ratings.len() ==> !pred(#[trigger] ratings[k]))
            ==> ratings.filter(pred) == Seq::<Rating>::empty(),
    decreases ratings.len(),
{
    reveal(Seq::filter);
    if ratings.len() > 0 {
        let prefix = ratings.drop_last();
        assert(forall|k: int| 0 <= k < prefix.len() ==> prefix[k] == ratings[k]);
        lemma_filter_trivial(prefix, pred);
        if forall|k: int| 0 <= k < ratings.len() ==> pred(#[trigger] ratings[k]) {
            assert(ratings.filter(pred) =~= ratings);
        }
    }
}

/// What one successful submission makes of the student's matrix row. The
/// pair set covers a subset of the courses, each code once; afterwards the
/// student's row holds exactly the submitted values — the value of pair k
/// in the column of the course its code resolves to — and zero in every
/// other column. This is replace semantics: the row afterwards reflects
/// the submitted pair set alone, whatever rows the student had stored
/// before; a rating submitted earlier for a course left out now is gone
/// from the row.
pub proof fn lemma_submit_fills_row(
    pre: Seq<Rating>,
    courses: Seq<Course>,
    pairs: Seq<(Seq<char>, u8)>,
    sid: i64,
    first_id: i64,
)
    requires
        courses_wf(courses),
        all_codes_resolve(pairs, courses),
        pairwise_distinct_codes(pairs),
    ensures
        ({
            let post = ratings_without(pre, sid) + new_rows(pairs, courses, sid, first_id);
            &&& forall|k: int| 0 <= k < pairs.len()
                ==> cell_value(
                    post,
                    sid as int,
                    find_course(courses, (#[trigger] pairs[k]).0)->Some_0 + 1,
                ) == pairs[k].1
            &&& forall|c: int|
                (forall|k: int| 0 <= k < pairs.len()
                    ==> find_course(courses, (#[trigger] pairs[k]).0)->Some_0 + 1 != c)
                ==> cell_value(post, sid as int, c) == 0
        }),
{
    let kept = ratings_without(pre, sid);
    let rows = new_rows(pairs, courses, sid, first_id);
    let post = kept + rows;

    // Rows that survive the deletion belong to other students.
    assert forall|k: int| 0 <= k < kept.len() implies (#[trigger] kept[k]).student != sid by {
        pre.lemma_filter_pred(|r: Rating| r.student != sid, k);
    }

    // Codes resolve to their own course, and distinct codes to distinct
    // courses, so each inserted row sits in a column of its own.
    assert forall|k: int| 0 <= k < pairs.len() implies (#[trigger] rows[k]).course
        == find_course(courses, pairs[k].0)->Some_0 + 1 by {
        lemma_find_course_props(courses, pairs[k].0);
    }
    assert forall|k: int, l: int| 0 <= k < l < pairs.len()
        implies (#[trigger] rows[k]).course != (#[trigger] rows[l]).course by {
        lemma_find_course_props(courses, pairs[k].0);
        lemma_find_course_props(courses, pairs[l].0);
        let ik = find_course(courses, pairs[k].0)->Some_0;
        let il = find_course(courses, pairs[l].0)->Some_0;
        if ik == il {
            assert(courses[ik].code@ == pairs[k].0 && courses[il].code@ == pairs[l].0);
        }
    }

    assert forall|k: int| 0 <= k < pairs.len() implies cell_value(
        post,
        sid as int,
        find_course(courses, (#[trigger] pairs[k]).0)->Some_0 + 1,
    ) == pairs[k].1 by {
        let c = find_course(courses, pairs[k].0)->Some_0 + 1;
        let pos = kept.len() + k;
        assert(post[pos as int] == rows[k]);
        assert forall|l: int| pos < l < post.len()
            implies !((#[trigger] post[l]).student == sid as int && post[l].course == c) by {
            assert(post[l] == rows[l - kept.len()]);
        }
        lemma_cell_value_at(post, sid as int, c, pos as int);
    }

    assert forall|c: int|
        (forall|k: int| 0 <= k < pairs.len()
            ==> find_course(courses, (#[trigger] pairs[k]).0)->Some_0 + 1 != c)
        implies cell_value(post, sid as int, c) == 0 by {
        assert forall|l: int| 0 <= l < post.len()
            implies !((#[trigger] post[l]).student == sid as int && post[l].course == c) by {
            if l < kept.len() {
                assert(post[l] == kept[l]);
            } else {
                assert(post[l] == rows[l - kept.len()]);
            }
        }
        lemma_cell_value_no_match(post, sid as int, c);
    }
}

/// For all registered students and courses: after a submission whose pair
/// set covers a subset of the courses, each code once and every value at
/// least one, the student's matrix row is nonzero exactly in the columns
/// of the submitted courses.
pub proof fn lemma_submit_row_nonzero_exactly(
    pre: Seq<Rating>,
    courses: Seq<Course>,
    pairs: Seq<(Seq<char>, u8)>,
    sid: i64,
    first_id: i64,
)
    requires
        courses_wf(courses),
        all_codes_resolve(pairs, courses),
        pairwise_distinct_codes(pairs),
        forall|k: int| 0 <= k < pairs.len() ==> (#[trigger] pairs[k]).1 >= 1,
    ensures
        ({
            let post = ratings_without(pre, sid) + new_rows(pairs, courses, sid, first_id);
            forall|c: int| 1 <= c <= courses.len()
                ==> ((#[trigger] cell_value(post, sid as int, c) != 0) <==> exists|k: int|
                    0 <= k < pairs.len() && find_course(courses, (#[trigger] pairs[k]).0)->Some_0
                        + 1 == c)
        }),
{
    lemma_submit_fills_row(pre, courses, pairs, sid, first_id);
    let post = ratings_without(pre, sid) + new_rows(pairs, courses, sid, first_id);
    assert forall|c: int| 1 <= c <= courses.len() implies ((#[trigger] cell_value(
        post,
        sid as int,
        c,
    ) != 0) <==> exists|k: int|
        0 <= k < pairs.len() && find_course(courses, (#[trigger] pairs[k]).0)->Some_0 + 1
            == c) by {
        if exists|k: int|
            0 <= k < pairs.len() && find_course(courses, (#[trigger] pairs[k]).0)->Some_0 + 1
                == c {
            let k = choose|k: int|
                0 <= k < pairs.len() && find_course(courses, (#[trigger] pairs[k]).0)->Some_0 + 1
                    == c;
            assert(cell_value(post, sid as int, c) == pairs[k].1);
        } else {
            assert(forall|k: int| 0 <= k < pairs.len()
                ==> find_course(courses, (#[trigger] pairs[k]).0)->Some_0 + 1 != c);
            assert(cell_value(post, sid as int, c) == 0);
        }
    }
}

/// Every row a filter keeps occurs in the sequence it was filtered from.
proof fn lemma_filter_elem_of(ratings: Seq<Rating>, pred: spec_fn(Rating) -> bool)
    ensures
        forall|k: int| 0 <= k < ratings.filter(pred).len()
            ==> ratings.contains(#[trigger] ratings.filter(pred)[k]),
    decreases ratings.len(),
{
    reveal(Seq::filter);
    if ratings.len() > 0 {
        let prefix = ratings.drop_last();
        lemma_filter_elem_of(prefix, pred);
        let out = ratings.filter(pred);
        let kept = prefix.filter(pred);
        assert forall|k: int| 0 <= k < out.len() implies ratings.contains(#[trigger] out[k]) by {
            if pred(ratings.last()) && k == out.len() - 1 {
                assert(out[k] == ratings[ratings.len() - 1]);
            } else {
                assert(out[k] == kept[k]);
                let o = choose|o: int| 0 <= o < prefix.len() && prefix[o] == kept[k];
                assert(ratings[o] == out[k]);
            }
        }
    }
}

/// Deleting rows keeps the pairs distinct.
proof fn lemma_filter_keeps_pairs_distinct(ratings: Seq<Rating>, pred: spec_fn(Rating) -> bool)
    requires
        one_row_per_pair(ratings),
    ensures
        one_row_per_pair(ratings.filter(pred)),
    decreases ratings.len(),
{
    reveal(Seq::filter);
    if ratings.len() > 0 {
        let prefix = ratings.drop_last();
        let last = ratings.last();
        assert(forall|k: int| 0 <= k < prefix.len() ==> prefix[k] == ratings[k]);
        assert(one_row_per_pair(prefix));
        lemma_filter_keeps_pairs_distinct(prefix, pred);
        if pred(last) {
            let kept = prefix.filter(pred);
            let out = kept.push(last);
            assert(ratings.filter(pred) == out);
            lemma_filter_elem_of(prefix, pred);
            assert forall|k: int, l: int| 0 <= k < l < out.len()
                implies !((#[trigger] out[k]).student == (#[trigger] out[l]).student
                    && out[k].course == out[l].course) by {
                if l == out.len() - 1 {
                    assert(out[k] == kept[k] && out[l] == last);
                    let o = choose|o: int| 0 <= o < prefix.len() && prefix[o] == kept[k];
                    assert(ratings[o] == out[k] && ratings[ratings.len() - 1] == last);
                } else {
                    assert(out[k] == kept[k] && out[l] == kept[l]);
                }
            }
        }
    }
}

/// The replace protocol keeps the store's one-row-per-pair discipline: when
/// every stored pair is unique, a successful submission leaves every
/// stored pair unique again. The protocol establishes the hypotheses on
/// every accepted payload: it rejects one that repeats a course code and
/// one with a code that does not resolve. No storage constraint enforces
/// the discipline; the protocol itself maintains it.
pub proof fn lemma_replace_keeps_pairs_unique(
    pre: Seq<Rating>,
    courses: Seq<Course>,
    pairs: Seq<(Seq<char>, u8)>,
    sid: i64,
    first_id: i64,
)
    requires
        courses_wf(courses),
        all_codes_resolve(pairs, courses),
        pairwise_distinct_codes(pairs),
        one_row_per_pair(pre),
    ensures
        one_row_per_pair(ratings_without(pre, sid) + new_rows(pairs, courses, sid, first_id)),
{
    let pred = |r: Rating| r.student != sid;
    let kept = ratings_without(pre, sid);
    let rows = new_rows(pairs, courses, sid, first_id);
    let post = kept + rows;

    lemma_filter_keeps_pairs_distinct(pre, pred);
    assert forall|k: int| 0 <= k < kept.len() implies (#[trigger] kept[k]).student != sid by {
        pre.lemma_filter_pred(pred, k);
    }
    assert forall|k: int, l: int| 0 <= k < l < pairs.len()
        implies (#[trigger] rows[k]).course != (#[trigger] rows[l]).course by {
        lemma_find_course_props(courses, pairs[k].0);
        lemma_find_course_props(courses, pairs[l].0);
        let ik = find_course(courses, pairs[k].0)->Some_0;
        let il = find_course(courses, pairs[l].0)->Some_0;
        if ik == il {
            assert(courses[ik].code@ == pairs[k].0 && courses[il].code@ == pairs[l].0);
        }
    }
    assert forall|k: int, l: int| 0 <= k < l < post.len()
        implies !((#[trigger] post[k]).student == (#[trigger] post[l]).student
            && post[k].course == post[l].course) by {
        if l < kept.len() {
            assert(post[k] == kept[k] && post[l] == kept[l]);
        } else if k >= kept.len() {
            assert(post[k] == rows[k - kept.len()] && post[l] == rows[l - kept.len()]);
        } else {
            assert(post[k] == kept[k] && post[l] == rows[l - kept.len()]);
        }
    }
}

/// Submitting the same valid pair set twice in sequence yields the same
/// matrix as submitting it once: the second submission deletes exactly the
/// rows the first one inserted and inserts rows that differ only in their
/// row ids, which no matrix cell reads.
pub proof fn lemma_submit_idempotent(
    pre: Seq<Rating>,
    courses: Seq<Course>,
    pairs: Seq<(Seq<char>, u8)>,
    sid: i64,
    first_id1: i64,
    first_id2: i64,
)
    ensures
        ({
            let once = ratings_without(pre, sid) + new_rows(pairs, courses, sid, first_id1);
            let twice = ratings_without(once, sid) + new_rows(pairs, courses, sid, first_id2);
            forall|s: int, c: int|
                #[trigger] cell_value(twice, s, c) == #[trigger] cell_value(once, s, c)
        }),
{
    let pred = |r: Rating| r.student != sid;
    let kept = ratings_without(pre, sid);
    let rows1 = new_rows(pairs, courses, sid, first_id1);
    let rows2 = new_rows(pairs, courses, sid, first_id2);
    let once = kept + rows1;
    let twice = ratings_without(once, sid) + rows2;

    // Deleting the student's rows from the once-submitted state strips
    // exactly the inserted rows and keeps the others untouched.
    Seq::filter_distributes_over_add(kept, rows1, pred);
    assert forall|k: int| 0 <= k < kept.len() implies pred(#[trigger] kept[k]) by {
        pre.lemma_filter_pred(pred, k);
    }
    lemma_filter_trivial(kept, pred);
    assert(forall|k: int| 0 <= k < rows1.len() ==> !pred(#[trigger] rows1[k]));
    lemma_filter_trivial(rows1, pred);
    assert(ratings_without(once, sid) =~= kept);
    assert(twice =~= kept + rows2);

    assert forall|s: int, c: int|
        #[trigger] cell_value(twice, s, c) == #[trigger] cell_value(once, s, c) by {
        lemma_cell_value_ignores_ids(kept + rows2, once, s, c);
    }
}

} // verus!
