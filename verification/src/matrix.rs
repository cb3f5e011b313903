//! The matrix assembler: projects the stored sparse rating rows into a
//! dense students-by-courses matrix of rating values, zero where a pair was
//! never rated.
//!
//! Row `i` is the student with id `i + 1` and column `j` the course with id
//! `j + 1`: ids are dense and assigned in creation order, so position
//! encodes identity and the matrix needs no embedded labels.

use vstd::prelude::*;
use crate::store::{Rating, Store};

verus! {

/// The value of one matrix cell: the most recently inserted stored rating
/// of the pair, or zero when the pair has none. The delete-then-insert
/// submission protocol keeps at most one row per pair, so this is simply
/// "the rating of the pair, or zero".
pub open spec fn cell_value(ratings: Seq<Rating>, student_id: int, course_id: int) -> i64
    decreases ratings.len(),
{
    if ratings.len() == 0 {
        0
    } else if ratings.last().student == student_id && ratings.last().course == course_id {
        ratings.last().rating
    } else {
        cell_value(ratings.drop_last(), student_id, course_id)
    }
}

impl Store {
    /// Assembles the dense ratings matrix. The dimensions are always
    /// exactly (student count, course count), however sparse the stored
    /// rating set is, and cell (i, j) holds the stored rating of student
    /// i + 1 for course j + 1, zero when that pair was never rated.
    #[verifier::loop_isolation(false)]
    pub fn get_ratings_matrix(&self) -> (m: Vec<Vec<i64>>)
        requires
            self.wf(),
        ensures
            m@.len() == self.students().len(),
            forall|i: int| 0 <= i < m@.len() ==> (#[trigger] m@[i])@.len() == self.courses().len(),
            forall|i: int, j: int|
                0 <= i < m@.len() && 0 <= j < self.courses().len()
                ==> m@[i]@[j] == cell_value(self.ratings(), i + 1, j + 1),
    {
        let n_students = self.get_student_count();
        let n_courses = self.get_course_count();
        let mut m: Vec<Vec<i64>> = Vec::new();
        let mut i: usize = 0;
        while i < n_students
            invariant
                i <= n_students,
                m@.len() == i,
                forall|a: int| 0 <= a < i ==> (#[trigger] m@[a])@.len() == n_courses,
                forall|a: int, b: int|
                    0 <= a < i && 0 <= b < n_courses ==> m@[a]@[b] == 0i64,
            decreases n_students - i,
        {
            let mut row: Vec<i64> = Vec::new();
            let mut j: usize = 0;
            while j < n_courses
                invariant
                    j <= n_courses,
                    row@.len() == j,
                    forall|b: int| 0 <= b < j ==> row@[b] == 0i64,
                decreases n_courses - j,
            {
                row.push(0);
                j += 1;
            }
            m.push(row);
            i += 1;
        }
        proof {
            assert(self.ratings().subrange(0, 0) =~= Seq::<Rating>::empty());
        }
        let ratings = self.ratings_ref();
        let mut k: usize = 0;
        while k < ratings.len()
            invariant
                k <= ratings.len(),
                m@.len() == n_students,
                forall|a: int| 0 <= a < m@.len() ==> (#[trigger] m@[a])@.len() == n_courses,
                forall|a: int, b: int|
                    0 <= a < m@.len() && 0 <= b < n_courses
                    ==> m@[a]@[b] == cell_value(
                        self.ratings().subrange(0, k as int),
                        a + 1,
                        b + 1,
                    ),
            decreases ratings.len() - k,
        {
            let r = &ratings[k];
            let si = (r.student - 1) as usize;
            let ci = (r.course - 1) as usize;
            let value = r.rating;
            proof {
                assert(1 <= self.ratings()[k as int].student <= n_students);
                assert(1 <= self.ratings()[k as int].course <= n_courses);
            }
            m[si][ci] = value;
            proof {
                let prefix = self.ratings().subrange(0, k as int);
                let upto = self.ratings().subrange(0, k + 1);
                assert(upto.drop_last() =~= prefix);
                assert(upto.last() == self.ratings()[k as int]);
                assert forall|a: int, b: int|
                    0 <= a < m@.len() && 0 <= b < n_courses
                    implies m@[a]@[b] == cell_value(upto, a + 1, b + 1) by {
                    if a == si as int && b == ci as int {
                        assert(m@[a]@[b] == value);
                    } else {
                        assert(m@[a]@[b] == cell_value(prefix, a + 1, b + 1));
                        assert(!(upto.last().student == a + 1 && upto.last().course == b + 1));
                    }
                }
            }
            k += 1;
        }
        proof {
            assert(self.ratings().subrange(0, self.ratings().len() as int) =~= self.ratings());
        }
        m
    }
}

} // verus!
