//! The rating submission protocol: one identified student hands in a full
//! replacement set of (course code, rating value) pairs, encoded as a
//! payload string.
//!
//! The submission is all-or-nothing. Everything is validated first — the
//! identity resolves, the payload parses, every course code resolves — and
//! only then are the student's old rows deleted and the new rows inserted,
//! so a failing submission leaves the store exactly as it was.

use vstd::prelude::*;
use crate::laws::lemma_replace_keeps_pairs_unique;
use crate::payload::{
    lemma_sep_split_len, pairwise_distinct_codes, parse_payload, parse_pairs, pairs_view,
    sep_split_len,
};
use crate::store::{
    find_course, find_student, lemma_find_course_props, one_row_per_pair, ratings_without, Course,
    Error, Rating, Store,
};

verus! {

/// Every code of the pair list resolves to a stored course.
pub open spec fn all_codes_resolve(pairs: Seq<(Seq<char>, u8)>, courses: Seq<Course>) -> bool {
    forall|k: int| 0 <= k < pairs.len()
        ==> find_course(courses, (#[trigger] pairs[k]).0) is Some
}

/// The rows a successful submission inserts for student `student_id`: one
/// per pair, in payload order, each holding the id of the course its code
/// resolves to, with fresh row ids counted from `first_id`.
pub open spec fn new_rows(
    pairs: Seq<(Seq<char>, u8)>,
    courses: Seq<Course>,
    student_id: i64,
    first_id: i64,
) -> Seq<Rating> {
    Seq::new(
        pairs.len(),
        |k: int| Rating {
            id: (first_id + k) as i64,
            student: student_id,
            course: courses[find_course(courses, pairs[k].0)->Some_0].id,
            rating: pairs[k].1 as i64,
        },
    )
}

/// A payload of `n` characters holds at most `n + 1` pairs: each pair after
/// the first costs at least one separator.
pub proof fn lemma_parse_pairs_count(s: Seq<char>)
    requires
        parse_pairs(s) is Some,
    ensures
        parse_pairs(s)->Some_0.len() <= s.len() + 1,
    decreases s.len(),
{
    lemma_sep_split_len(s, '&');
    let i = sep_split_len(s, '&');
    if i < s.len() {
        lemma_parse_pairs_count(s.subrange(i as int + 1, s.len() as int));
    }
}

impl Store {
    /// The rating submission protocol. Resolves the student identity,
    /// parses the payload, rejects a payload that repeats a course code,
    /// resolves every course code, and only then replaces the student's
    /// whole rating set: rows for courses omitted from the payload are
    /// gone afterwards. Any failure — no identity token, unknown student,
    /// malformed or repeating payload, unknown course code — leaves the
    /// store untouched. Because every accepted pair set names each course
    /// once, the replace keeps at most one rating row per (student,
    /// course) pair.
    ///
    /// The `requires` bound only keeps fresh row ids inside the id type:
    /// a payload of `n` characters inserts at most `n + 1` rows.
    #[verifier::loop_isolation(false)]
    #[verifier::rlimit(80)]
    pub fn post_rating_route(&mut self, student_name: Option<&String>, payload: &str) -> (r:
        Result<(), Error>)
        requires
            old(self).wf(),
            old(self).next_rating_id() + payload@.len() + 1 <= i64::MAX,
        ensures
            final(self).wf(),
            final(self).students() == old(self).students(),
            final(self).courses() == old(self).courses(),
            match r {
                Ok(()) => {
                    &&& student_name is Some
                    &&& find_student(old(self).students(), student_name->Some_0@) is Some
                    &&& parse_pairs(payload@) is Some
                    &&& pairwise_distinct_codes(parse_pairs(payload@)->Some_0)
                    &&& all_codes_resolve(parse_pairs(payload@)->Some_0, old(self).courses())
                    &&& (one_row_per_pair(old(self).ratings()) ==> one_row_per_pair(
                        final(self).ratings(),
                    ))
                    &&& ({
                        let sid = find_student(
                            old(self).students(),
                            student_name->Some_0@,
                        )->Some_0 + 1;
                        let pairs = parse_pairs(payload@)->Some_0;
                        &&& final(self).ratings() == ratings_without(
                            old(self).ratings(),
                            sid as i64,
                        ) + new_rows(
                            pairs,
                            old(self).courses(),
                            sid as i64,
                            old(self).next_rating_id(),
                        )
                        &&& final(self).next_rating_id() == old(self).next_rating_id()
                            + pairs.len()
                    })
                },
                Err(e) => {
                    &&& *final(self) == *old(self)
                    &&& match e {
                        Error::IdentityMissing => student_name is None,
                        Error::NotFound => student_name is Some && {
                            ||| find_student(
                                old(self).students(),
                                student_name->Some_0@,
                            ) is None
                            ||| (find_student(
                                old(self).students(),
                                student_name->Some_0@,
                            ) is Some && parse_pairs(payload@) is Some
                                && pairwise_distinct_codes(parse_pairs(payload@)->Some_0)
                                && !all_codes_resolve(
                                parse_pairs(payload@)->Some_0,
                                old(self).courses(),
                            ))
                        },
                        Error::MalformedPayload => student_name is Some && find_student(
                            old(self).students(),
                            student_name->Some_0@,
                        ) is Some && {
                            ||| parse_pairs(payload@) is None
                            ||| (parse_pairs(payload@) is Some && !pairwise_distinct_codes(
                                parse_pairs(payload@)->Some_0,
                            ))
                        },
                        _ => false,
                    }
                },
            },
    {
        // Step 1: resolve the identity. No token at all and an unknown
        // name are different, user-correctable failures.
        let name = match student_name {
            None => {
                return Err(Error::IdentityMissing);
            },
            Some(n) => n,
        };
        let student_id = match self.get_student_id(name) {
            Err(e) => {
                return Err(e);
            },
            Ok(id) => id,
        };
        proof {
            crate::store::lemma_find_student_props(self.students(), name@);
        }

        // Step 2: parse the payload; a malformed pair fails the whole
        // submission before anything is touched.
        let pairs = match parse_payload(payload) {
            Err(e) => {
                return Err(e);
            },
            Ok(ps) => ps,
        };
        proof {
            lemma_parse_pairs_count(payload@);
        }
        let ghost pview = pairs_view(pairs@);

        // A proper pair set names each course code once: a payload that
        // repeats a code is rejected whole, which is what keeps at most
        // one rating row per (student, course) pair across the replace.
        let mut a: usize = 0;
        while a < pairs.len()
            invariant
                a <= pairs.len(),
                forall|k: int, l: int|
                    0 <= k < l < pairs.len() && k < a
                    ==> (#[trigger] pview[k]).0 != (#[trigger] pview[l]).0,
            decreases pairs.len() - a,
        {
            let mut b: usize = a + 1;
            while b < pairs.len()
                invariant
                    a < b <= pairs.len(),
                    forall|l: int| a < l < b ==> pview[a as int].0 != (#[trigger] pview[l]).0,
                decreases pairs.len() - b,
            {
                if pairs[a].0 == pairs[b].0 {
                    proof {
                        assert(pview[a as int].0 == pairs@[a as int].0@);
                        assert(pview[b as int].0 == pairs@[b as int].0@);
                        assert(!pairwise_distinct_codes(pview));
                    }
                    return Err(Error::MalformedPayload);
                }
                proof {
                    assert(pview[a as int].0 == pairs@[a as int].0@);
                    assert(pview[b as int].0 == pairs@[b as int].0@);
                }
                b += 1;
            }
            a += 1;
        }
        proof {
            assert(pairwise_distinct_codes(pview));
        }

        // Step 3: resolve every course code. An unresolvable code fails
        // the whole submission, consistent with replace semantics that
        // must not partially apply.
        let mut course_ids: Vec<i64> = Vec::new();
        let mut k: usize = 0;
        while k < pairs.len()
            invariant
                k <= pairs.len(),
                course_ids@.len() == k,
                forall|l: int| 0 <= l < k
                    ==> find_course(self.courses(), (#[trigger] pview[l]).0) is Some,
                forall|l: int| 0 <= l < k
                    ==> #[trigger] course_ids@[l] == find_course(
                        self.courses(),
                        pview[l].0,
                    )->Some_0 + 1 && 1 <= course_ids@[l] <= self.courses().len(),
            decreases pairs.len() - k,
        {
            let cid = match self.get_course_id(&pairs[k].0) {
                Err(e) => {
                    proof {
                        assert(pview[k as int].0 == pairs@[k as int].0@);
                        assert(find_course(self.courses(), pview[k as int].0) is None);
                        assert(!all_codes_resolve(pview, self.courses()));
                    }
                    return Err(e);
                },
                Ok(id) => id,
            };
            proof {
                lemma_find_course_props(self.courses(), pairs@[k as int].0@);
                assert(pview[k as int].0 == pairs@[k as int].0@);
            }
            let ghost prev_ids = course_ids@;
            course_ids.push(cid);
            proof {
                assert forall|l: int| 0 <= l < k + 1
                    implies #[trigger] course_ids@[l] == find_course(
                        self.courses(),
                        pview[l].0,
                    )->Some_0 + 1 && 1 <= course_ids@[l] <= self.courses().len() by {
                    if l < k {
                        assert(course_ids@[l] == prev_ids[l]);
                    } else {
                        assert(course_ids@[l] == cid);
                    }
                }
            }
            k += 1;
        }

        // Steps 4 and 5: replace. Delete the student's old rows, then
        // insert one row per validated pair, in payload order.
        self.reset_student_ratings(student_id);
        let ghost base = self.ratings();
        let ghost first_id = self.next_rating_id();
        let mut j: usize = 0;
        proof {
            assert(base + new_rows(pview.subrange(0, 0), self.courses(), student_id, first_id)
                =~= base);
        }
        while j < pairs.len()
            invariant
                j <= pairs.len(),
                self.wf(),
                self.students() == old(self).students(),
                self.courses() == old(self).courses(),
                self.next_rating_id() == first_id + j,
                first_id + pairs@.len() <= i64::MAX,
                self.ratings() == base + new_rows(
                    pview.subrange(0, j as int),
                    self.courses(),
                    student_id,
                    first_id,
                ),
            decreases pairs.len() - j,
        {
            let value = pairs[j].1;
            let r = self.add_rating(student_id, course_ids[j], value as i64);
            proof {
                lemma_find_course_props(self.courses(), pview[j as int].0);
                assert(1 <= student_id <= self.students().len());
                assert(course_ids@[j as int] == find_course(
                    self.courses(),
                    pview[j as int].0,
                )->Some_0 + 1);
                assert(1 <= course_ids@[j as int] <= self.courses().len());
                let prev = pview.subrange(0, j as int);
                let upto = pview.subrange(0, j + 1);
                assert(pview[j as int].0 == pairs@[j as int].0@);
                assert(r is Ok);
                assert(new_rows(upto, self.courses(), student_id, first_id) =~= new_rows(
                    prev,
                    self.courses(),
                    student_id,
                    first_id,
                ).push(
                    Rating {
                        id: (first_id + j) as i64,
                        student: student_id,
                        course: self.courses()[find_course(
                            self.courses(),
                            pview[j as int].0,
                        )->Some_0].id,
                        rating: value as i64,
                    },
                ));
                assert(self.ratings() =~= base + new_rows(
                    upto,
                    self.courses(),
                    student_id,
                    first_id,
                ));
            }
            j += 1;
        }
        proof {
            assert(pview.subrange(0, pview.len() as int) =~= pview);
            assert forall|l: int| 0 <= l < pview.len()
                implies find_course(old(self).courses(), (#[trigger] pview[l]).0) is Some by {
                assert(find_course(self.courses(), pview[l].0) is Some);
            }
            if one_row_per_pair(old(self).ratings()) {
                lemma_replace_keeps_pairs_unique(
                    old(self).ratings(),
                    old(self).courses(),
                    pview,
                    student_id,
                    first_id,
                );
            }
        }
        Ok(())
    }
}

} // verus!
