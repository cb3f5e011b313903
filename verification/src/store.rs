//! The entity store: durable-state model for students, courses and ratings.
//!
//! Identifiers are dense and 1-based: the i-th student ever registered has
//! id `i + 1`, and likewise for courses. Entities are never deleted, so the
//! ids double as positional indices when the dense matrix is assembled.

use vstd::prelude::*;

verus! {

/// A registered student. Names are unique, case-sensitive.
pub struct Student {
    pub id: i64,
    pub name: String,
}

/// A registered course. No two courses share both `code` and `name`.
pub struct Course {
    pub id: i64,
    pub code: String,
    pub name: String,
    pub course_type: String,
}

/// One stored rating: `student` and `course` reference existing entities by
/// id, and `rating` is the submitted value.
pub struct Rating {
    pub id: i64,
    pub student: i64,
    pub course: i64,
    pub rating: i64,
}

/// The error taxonomy of the core. Every failure of a store or protocol
/// operation is one of these kinds.
#[derive(Clone, Copy, Debug, PartialEq, Eq, Structural)]
pub enum Error {
    /// A lookup by student name or course code missed: user-correctable.
    NotFound,
    /// A registration clashed with an already stored entity.
    AlreadyExists,
    /// A rating submission payload could not be parsed.
    MalformedPayload,
    /// A rating referenced a student or course id that does not exist.
    ForeignKeyViolation,
    /// A rating submission carried no identity token.
    IdentityMissing,
}

impl Error {
    /// The message text of each error kind. One `NotFound` kind covers
    /// both resolvers, so its text names both user-correctable causes.
    pub open spec fn message_text(self) -> Seq<char> {
        match self {
            Error::NotFound => "Couldn't fetch the id, probably incorrect name or code"@,
            Error::AlreadyExists => "Entity already exists"@,
            Error::MalformedPayload => "Couldn't parse request"@,
            Error::ForeignKeyViolation => "Rating references an unknown student or course"@,
            Error::IdentityMissing => "Name not found in cookies"@,
        }
    }

    /// A human-readable message for the error kind.
    pub fn message(&self) -> (r: &'static str)
        ensures
            r@ == self.message_text(),
    {
        match self {
            Error::NotFound => "Couldn't fetch the id, probably incorrect name or code",
            Error::AlreadyExists => "Entity already exists",
            Error::MalformedPayload => "Couldn't parse request",
            Error::ForeignKeyViolation => "Rating references an unknown student or course",
            Error::IdentityMissing => "Name not found in cookies",
        }
    }
}

impl Clone for Student {
    fn clone(&self) -> (res: Self)
        ensures
            res == *self,
    {
        Student { id: self.id, name: self.name.clone() }
    }
}

impl Clone for Course {
    fn clone(&self) -> (res: Self)
        ensures
            res == *self,
    {
        Course {
            id: self.id,
            code: self.code.clone(),
            name: self.name.clone(),
            course_type: self.course_type.clone(),
        }
    }
}

impl Clone for Rating {
    fn clone(&self) -> (res: Self)
        ensures
            res == *self,
    {
        Rating { id: self.id, student: self.student, course: self.course, rating: self.rating }
    }
}

/// Index of the first student with the given name, if any.
pub open spec fn find_student(students: Seq<Student>, name: Seq<char>) -> Option<int>
    decreases students.len(),
{
    if students.len() == 0 {
        None
    } else if students[0].name@ == name {
        Some(0)
    } else {
        match find_student(students.drop_first(), name) {
            Some(i) => Some(i + 1),
            None => None,
        }
    }
}

/// Index of the first course with the given code, if any.
pub open spec fn find_course(courses: Seq<Course>, code: Seq<char>) -> Option<int>
    decreases courses.len(),
{
    if courses.len() == 0 {
        None
    } else if courses[0].code@ == code {
        Some(0)
    } else {
        match find_course(courses.drop_first(), code) {
            Some(i) => Some(i + 1),
            None => None,
        }
    }
}

/// Whether some stored course matches the given code and name jointly: the
/// uniqueness key for course registration.
pub open spec fn has_course_code_name(courses: Seq<Course>, code: Seq<char>, name: Seq<char>) -> bool {
    exists|i: int| 0 <= i < courses.len()
        && courses[i].code@ == code && courses[i].name@ == name
}

/// The ratings that remain once every row of the given student is removed.
pub open spec fn ratings_without(ratings: Seq<Rating>, student_id: i64) -> Seq<Rating> {
    ratings.filter(|r: Rating| r.student != student_id)
}

/// The rows of the given student, in stored order.
pub open spec fn ratings_of(ratings: Seq<Rating>, student_id: i64) -> Seq<Rating> {
    ratings.filter(|r: Rating| r.student == student_id)
}

/// Students are stored under dense 1-based ids, names all distinct.
pub open spec fn students_wf(students: Seq<Student>) -> bool {
    &&& forall|i: int| 0 <= i < students.len() ==> (#[trigger] students[i]).id == i + 1
    &&& forall|i: int, j: int|
        0 <= i < j < students.len()
        ==> (#[trigger] students[i]).name@ != (#[trigger] students[j]).name@
}

/// Courses are stored under dense 1-based ids, and no two share both code
/// and name.
pub open spec fn courses_wf(courses: Seq<Course>) -> bool {
    &&& forall|i: int| 0 <= i < courses.len() ==> (#[trigger] courses[i]).id == i + 1
    &&& forall|i: int, j: int|
        0 <= i < j < courses.len()
        ==> !((#[trigger] courses[i]).code@ == (#[trigger] courses[j]).code@
            && courses[i].name@ == courses[j].name@)
}

/// At most one rating row per (student, course) pair. The storage itself
/// does not enforce this; the submission protocol maintains it by its
/// delete-then-insert replace and by rejecting payloads that repeat a
/// course code.
pub open spec fn one_row_per_pair(ratings: Seq<Rating>) -> bool {
    forall|k: int, l: int|
        0 <= k < l < ratings.len()
        ==> !((#[trigger] ratings[k]).student == (#[trigger] ratings[l]).student
            && ratings[k].course == ratings[l].course)
}

/// Every rating references an existing student and course, and rating ids
/// grow strictly in insertion order, all below the id counter.
pub open spec fn ratings_wf(ratings: Seq<Rating>, n_students: int, n_courses: int, next_id: int) -> bool {
    &&& forall|k: int| 0 <= k < ratings.len()
        ==> 1 <= (#[trigger] ratings[k]).student <= n_students
            && 1 <= ratings[k].course <= n_courses
    &&& forall|k: int, l: int|
        0 <= k < l < ratings.len()
        ==> (#[trigger] ratings[k]).id < (#[trigger] ratings[l]).id
    &&& forall|k: int| 0 <= k < ratings.len() ==> (#[trigger] ratings[k]).id < next_id
}

/// The entity store: students, courses and ratings under the invariants of
/// [`Store::wf`]. The fields are private so that every mutation goes through
/// an operation that preserves the invariants.
pub struct Store {
    students: Vec<Student>,
    courses: Vec<Course>,
    ratings: Vec<Rating>,
    next_rating_id: i64,
}

impl Store {
    /// The stored students, in registration order.
    pub closed spec fn students(self) -> Seq<Student> {
        self.students@
    }

    /// The stored courses, in registration order.
    pub closed spec fn courses(self) -> Seq<Course> {
        self.courses@
    }

    /// The stored ratings, in insertion order.
    pub closed spec fn ratings(self) -> Seq<Rating> {
        self.ratings@
    }

    /// The id the next inserted rating row will carry.
    pub closed spec fn next_rating_id(self) -> i64 {
        self.next_rating_id
    }

    /// Well-formedness: ids are dense, 1-based, assigned in creation order
    /// and never reused; student names are unique; no two courses share both
    /// code and name; every rating references existing entities; rating ids
    /// grow strictly in insertion order and stay below the id counter.
    pub open spec fn wf(self) -> bool {
        &&& students_wf(self.students())
        &&& courses_wf(self.courses())
        &&& ratings_wf(
            self.ratings(),
            self.students().len() as int,
            self.courses().len() as int,
            self.next_rating_id() as int,
        )
        &&& 1 <= self.next_rating_id()
    }

    /// A fresh store: no students, no courses, no ratings.
    pub fn new() -> (s: Store)
        ensures
            s.wf(),
            s.students() == Seq::<Student>::empty(),
            s.courses() == Seq::<Course>::empty(),
            s.ratings() == Seq::<Rating>::empty(),
            s.next_rating_id() == 1,
    {
        let s = Store {
            students: Vec::new(),
            courses: Vec::new(),
            ratings: Vec::new(),
            next_rating_id: 1,
        };
        proof {
            assert(s.students() =~= Seq::<Student>::empty());
            assert(s.courses() =~= Seq::<Course>::empty());
            assert(s.ratings() =~= Seq::<Rating>::empty());
        }
        s
    }

    /// Number of registered students.
    pub fn get_student_count(&self) -> (n: usize)
        ensures
            n == self.students().len(),
    {
        self.students.len()
    }

    /// Number of registered courses.
    pub fn get_course_count(&self) -> (n: usize)
        ensures
            n == self.courses().len(),
    {
        self.courses.len()
    }

    /// Registers a student. Registration policy: a second registration under
    /// an already taken name is rejected with `AlreadyExists` rather than
    /// silently accepted, so duplicate registrations never go unnoticed.
    #[verifier::loop_isolation(false)]
    pub fn add_student(&mut self, name: String) -> (r: Result<(), Error>)
        requires
            old(self).wf(),
            old(self).students().len() + 1 <= i64::MAX,
        ensures
            final(self).wf(),
            final(self).courses() == old(self).courses(),
            final(self).ratings() == old(self).ratings(),
            final(self).next_rating_id() == old(self).next_rating_id(),
            match r {
                Ok(()) => {
                    &&& find_student(old(self).students(), name@) is None
                    &&& final(self).students() == old(self).students().push(
                        Student { id: (old(self).students().len() + 1) as i64, name },
                    )
                },
                Err(e) => {
                    &&& e == Error::AlreadyExists
                    &&& find_student(old(self).students(), name@) is Some
                    &&& final(self).students() == old(self).students()
                },
            },
    {
        let mut i: usize = 0;
        while i < self.students.len()
            invariant
                i <= self.students.len(),
                forall|j: int| 0 <= j < i ==> (#[trigger] self.students@[j]).name@ != name@,
            decreases self.students.len() - i,
        {
            if self.students[i].name == name {
                proof {
                    lemma_find_student_hit(self.students@, name@, i as int);
                }
                return Err(Error::AlreadyExists);
            }
            i += 1;
        }
        proof {
            lemma_find_student_miss(self.students@, name@);
        }
        let id: i64 = self.students.len() as i64 + 1;
        self.students.push(Student { id, name });
        proof {
            let prev = old(self).students();
            let now = self.students();
            assert forall|a: int| 0 <= a < now.len() implies (#[trigger] now[a]).id == a + 1 by {
                if a < prev.len() {
                    assert(now[a] == prev[a]);
                }
            }
            assert forall|a: int, b: int| 0 <= a < b < now.len()
                implies (#[trigger] now[a]).name@ != (#[trigger] now[b]).name@ by {
                if b < prev.len() {
                    assert(now[a] == prev[a] && now[b] == prev[b]);
                } else {
                    assert(now[a] == prev[a]);
                }
            }
        }
        Ok(())
    }

    /// Registers a course. Fails with `AlreadyExists` when a stored course
    /// matches on both code and name, the configured uniqueness key;
    /// duplicates of only one of the two fields are allowed.
    #[verifier::loop_isolation(false)]
    pub fn add_course(&mut self, code: String, name: String, course_type: String) -> (r: Result<
        (),
        Error,
    >)
        requires
            old(self).wf(),
            old(self).courses().len() + 1 <= i64::MAX,
        ensures
            final(self).wf(),
            final(self).students() == old(self).students(),
            final(self).ratings() == old(self).ratings(),
            final(self).next_rating_id() == old(self).next_rating_id(),
            match r {
                Ok(()) => {
                    &&& !has_course_code_name(old(self).courses(), code@, name@)
                    &&& final(self).courses() == old(self).courses().push(
                        Course {
                            id: (old(self).courses().len() + 1) as i64,
                            code,
                            name,
                            course_type,
                        },
                    )
                },
                Err(e) => {
                    &&& e == Error::AlreadyExists
                    &&& has_course_code_name(old(self).courses(), code@, name@)
                    &&& final(self).courses() == old(self).courses()
                },
            },
    {
        let mut i: usize = 0;
        while i < self.courses.len()
            invariant
                i <= self.courses.len(),
                forall|j: int| 0 <= j < i
                    ==> !((#[trigger] self.courses@[j]).code@ == code@
                        && self.courses@[j].name@ == name@),
            decreases self.courses.len() - i,
        {
            if self.courses[i].code == code && self.courses[i].name == name {
                return Err(Error::AlreadyExists);
            }
            i += 1;
        }
        let id: i64 = self.courses.len() as i64 + 1;
        self.courses.push(Course { id, code, name, course_type });
        proof {
            let prev = old(self).courses();
            let now = self.courses();
            assert forall|a: int| 0 <= a < now.len() implies (#[trigger] now[a]).id == a + 1 by {
                if a < prev.len() {
                    assert(now[a] == prev[a]);
                }
            }
            assert forall|a: int, b: int| 0 <= a < b < now.len()
                implies !((#[trigger] now[a]).code@ == (#[trigger] now[b]).code@
                    && now[a].name@ == now[b].name@) by {
                if b < prev.len() {
                    assert(now[a] == prev[a] && now[b] == prev[b]);
                } else {
                    assert(now[a] == prev[a]);
                }
            }
        }
        Ok(())
    }

    /// Resolves a student name to the id it was registered under. The match
    /// is exact and case-sensitive; an unregistered name is `NotFound`.
    #[verifier::loop_isolation(false)]
    pub fn get_student_id(&self, name: &String) -> (r: Result<i64, Error>)
        requires
            self.wf(),
        ensures
            match r {
                Ok(id) => {
                    &&& find_student(self.students(), name@) is Some
                    &&& id == find_student(self.students(), name@)->Some_0 + 1
                    &&& self.students()[id - 1].name@ == name@
                },
                Err(e) => {
                    &&& e == Error::NotFound
                    &&& find_student(self.students(), name@) is None
                },
            },
    {
        let mut i: usize = 0;
        while i < self.students.len()
            invariant
                i <= self.students.len(),
                forall|j: int| 0 <= j < i ==> (#[trigger] self.students@[j]).name@ != name@,
            decreases self.students.len() - i,
        {
            if self.students[i].name == *name {
                proof {
                    lemma_find_student_hit(self.students@, name@, i as int);
                }
                return Ok(self.students[i].id);
            }
            i += 1;
        }
        proof {
            lemma_find_student_miss(self.students@, name@);
        }
        Err(Error::NotFound)
    }

    /// Resolves a course code to an id: the id of the first course stored
    /// under that code. The match is exact and case-sensitive; an
    /// unregistered code is `NotFound`.
    #[verifier::loop_isolation(false)]
    pub fn get_course_id(&self, code: &String) -> (r: Result<i64, Error>)
        requires
            self.wf(),
        ensures
            match r {
                Ok(id) => {
                    &&& find_course(self.courses(), code@) is Some
                    &&& id == find_course(self.courses(), code@)->Some_0 + 1
                    &&& self.courses()[id - 1].code@ == code@
                },
                Err(e) => {
                    &&& e == Error::NotFound
                    &&& find_course(self.courses(), code@) is None
                },
            },
    {
        let mut i: usize = 0;
        while i < self.courses.len()
            invariant
                i <= self.courses.len(),
                forall|j: int| 0 <= j < i ==> (#[trigger] self.courses@[j]).code@ != code@,
            decreases self.courses.len() - i,
        {
            if self.courses[i].code == *code {
                proof {
                    lemma_find_course_hit(self.courses@, code@, i as int);
                }
                return Ok(self.courses[i].id);
            }
            i += 1;
        }
        proof {
            lemma_find_course_miss(self.courses@, code@);
        }
        Err(Error::NotFound)
    }

    /// Whether another rating row can still be given a fresh id: the
    /// machine-limit guard a caller tests before `add_rating`.
    pub fn has_rating_capacity(&self) -> (r: bool)
        ensures
            r == (self.next_rating_id() < i64::MAX),
    {
        self.next_rating_id < i64::MAX
    }

    /// Whether a submission payload of `len` characters can still be given
    /// fresh row ids: the machine-limit guard a caller tests before the
    /// rating submission protocol.
    pub fn accepts_payload_len(&self, len: usize) -> (r: bool)
        requires
            self.wf(),
        ensures
            r == (self.next_rating_id() + len + 1 <= i64::MAX),
    {
        let room = i64::MAX - self.next_rating_id;
        if room < 1 {
            return false;
        }
        len as u64 <= (room - 1) as u64
    }

    /// Inserts one rating row. Fails with `ForeignKeyViolation`, and stores
    /// nothing, exactly when `student_id` or `course_id` references no
    /// existing entity; the rating value itself is not bounded by storage.
    pub fn add_rating(&mut self, student_id: i64, course_id: i64, rating: i64) -> (r: Result<
        (),
        Error,
    >)
        requires
            old(self).wf(),
            old(self).next_rating_id() < i64::MAX,
        ensures
            final(self).wf(),
            final(self).students() == old(self).students(),
            final(self).courses() == old(self).courses(),
            match r {
                Ok(()) => {
                    &&& 1 <= student_id <= old(self).students().len()
                    &&& 1 <= course_id <= old(self).courses().len()
                    &&& final(self).ratings() == old(self).ratings().push(
                        Rating {
                            id: old(self).next_rating_id(),
                            student: student_id,
                            course: course_id,
                            rating,
                        },
                    )
                    &&& final(self).next_rating_id() == old(self).next_rating_id() + 1
                },
                Err(e) => {
                    &&& e == Error::ForeignKeyViolation
                    &&& !(1 <= student_id <= old(self).students().len() && 1 <= course_id
                        <= old(self).courses().len())
                    &&& final(self).ratings() == old(self).ratings()
                    &&& final(self).next_rating_id() == old(self).next_rating_id()
                },
            },
    {
        proof {
            lemma_store_lens(*self);
        }
        let n_students = self.students.len() as i64;
        let n_courses = self.courses.len() as i64;
        if !(1 <= student_id && student_id <= n_students && 1 <= course_id && course_id
            <= n_courses) {
            return Err(Error::ForeignKeyViolation);
        }
        let id = self.next_rating_id;
        self.ratings.push(Rating { id, student: student_id, course: course_id, rating });
        self.next_rating_id = id + 1;
        proof {
            let prev = old(self).ratings();
            let now = self.ratings();
            assert forall|k: int, l: int| 0 <= k < l < now.len()
                implies (#[trigger] now[k]).id < (#[trigger] now[l]).id by {
                if l < prev.len() {
                    assert(now[k] == prev[k] && now[l] == prev[l]);
                } else {
                    assert(now[k] == prev[k]);
                }
            }
            assert forall|k: int| 0 <= k < now.len()
                implies 1 <= (#[trigger] now[k]).student <= self.students().len()
                    && 1 <= now[k].course <= self.courses().len()
                    && now[k].id < self.next_rating_id() by {
                if k < prev.len() {
                    assert(now[k] == prev[k]);
                }
            }
        }
        Ok(())
    }

    /// The stored rating rows of one student, in insertion order.
    pub fn get_student_ratings(&self, student_id: i64) -> (r: Vec<Rating>)
        ensures
            r@ == ratings_of(self.ratings(), student_id),
    {
        let mut out: Vec<Rating> = Vec::new();
        let mut k: usize = 0;
        proof {
            assert(self.ratings().subrange(0, 0) =~= Seq::<Rating>::empty());
            reveal(Seq::filter);
        }
        while k < self.ratings.len()
            invariant
                k <= self.ratings.len(),
                out@ == ratings_of(self.ratings().subrange(0, k as int), student_id),
            decreases self.ratings.len() - k,
        {
            proof {
                assert(self.ratings().subrange(0, k + 1).drop_last() =~= self.ratings().subrange(
                    0,
                    k as int,
                ));
                assert(self.ratings().subrange(0, k + 1).last() == self.ratings()[k as int]);
                reveal(Seq::filter);
            }
            if self.ratings[k].student == student_id {
                out.push(self.ratings[k].clone());
            }
            k += 1;
        }
        proof {
            assert(self.ratings().subrange(0, self.ratings().len() as int) =~= self.ratings());
        }
        out
    }

    /// Removes every rating row of the given student. Idempotent: removing
    /// for a student with no rows, or an unknown id, leaves the store as it
    /// was and still succeeds.
    pub fn reset_student_ratings(&mut self, student_id: i64)
        requires
            old(self).wf(),
        ensures
            final(self).wf(),
            final(self).students() == old(self).students(),
            final(self).courses() == old(self).courses(),
            final(self).next_rating_id() == old(self).next_rating_id(),
            final(self).ratings() == ratings_without(old(self).ratings(), student_id),
    {
        let mut kept: Vec<Rating> = Vec::new();
        let mut k: usize = 0;
        proof {
            assert(self.ratings().subrange(0, 0) =~= Seq::<Rating>::empty());
            reveal(Seq::filter);
        }
        while k < self.ratings.len()
            invariant
                k <= self.ratings.len(),
                kept@ == ratings_without(self.ratings().subrange(0, k as int), student_id),
            decreases self.ratings.len() - k,
        {
            proof {
                assert(self.ratings().subrange(0, k + 1).drop_last() =~= self.ratings().subrange(
                    0,
                    k as int,
                ));
                assert(self.ratings().subrange(0, k + 1).last() == self.ratings()[k as int]);
                reveal(Seq::filter);
            }
            if self.ratings[k].student != student_id {
                kept.push(self.ratings[k].clone());
            }
            k += 1;
        }
        proof {
            assert(self.ratings().subrange(0, self.ratings().len() as int) =~= self.ratings());
        }
        self.ratings = kept;
        proof {
            lemma_ratings_filter_wf(
                old(self).ratings(),
                |r: Rating| r.student != student_id,
                self.students().len() as int,
                self.courses().len() as int,
                self.next_rating_id() as int,
            );
        }
    }

    /// Borrow of the stored rating rows, for the assembly loops of the
    /// sibling modules.
    pub(crate) fn ratings_ref(&self) -> (r: &Vec<Rating>)
        ensures
            r@ == self.ratings(),
    {
        &self.ratings
    }

    /// Borrow of the stored courses, for the read-side projections of the
    /// sibling modules.
    pub(crate) fn courses_ref(&self) -> (r: &Vec<Course>)
        ensures
            r@ == self.courses(),
    {
        &self.courses
    }

    /// All registered students, in registration (and so id) order.
    pub fn get_students(&self) -> (r: Vec<Student>)
        ensures
            r@ == self.students(),
    {
        let mut out: Vec<Student> = Vec::new();
        let mut i: usize = 0;
        while i < self.students.len()
            invariant
                i <= self.students.len(),
                out@ =~= self.students().subrange(0, i as int),
            decreases self.students.len() - i,
        {
            out.push(self.students[i].clone());
            i += 1;
        }
        proof {
            assert(self.students().subrange(0, self.students().len() as int) =~= self.students());
        }
        out
    }

    /// All registered courses, in registration (and so id) order.
    pub fn get_courses(&self) -> (r: Vec<Course>)
        ensures
            r@ == self.courses(),
    {
        let mut out: Vec<Course> = Vec::new();
        let mut i: usize = 0;
        while i < self.courses.len()
            invariant
                i <= self.courses.len(),
                out@ =~= self.courses().subrange(0, i as int),
            decreases self.courses.len() - i,
        {
            out.push(self.courses[i].clone());
            i += 1;
        }
        proof {
            assert(self.courses().subrange(0, self.courses().len() as int) =~= self.courses());
        }
        out
    }

    /// The distinct course-type tags, each once, in order of first
    /// appearance among the stored courses.
    pub fn get_types(&self) -> (r: Vec<String>)
        ensures
            r.deep_view() == distinct_types(self.courses()),
    {
        let mut out: Vec<String> = Vec::new();
        let mut i: usize = 0;
        proof {
            assert(self.courses().subrange(0, 0) =~= Seq::<Course>::empty());
        }
        while i < self.courses.len()
            invariant
                i <= self.courses.len(),
                out.deep_view() == distinct_types(self.courses().subrange(0, i as int)),
            decreases self.courses.len() - i,
        {
            let ct = &self.courses[i].course_type;
            let mut seen = false;
            let mut j: usize = 0;
            while j < out.len()
                invariant
                    j <= out.len(),
                    seen <==> exists|l: int| 0 <= l < j && out.deep_view()[l] == ct@,
                decreases out.len() - j,
            {
                if out[j] == *ct {
                    proof {
                        assert(out.deep_view()[j as int] == ct@);
                    }
                    seen = true;
                }
                j += 1;
            }
            proof {
                let prefix = self.courses().subrange(0, i as int);
                let upto = self.courses().subrange(0, i + 1);
                assert(upto.drop_last() =~= prefix);
                assert(upto.last() == self.courses()[i as int]);
                if seen {
                    assert(distinct_types(prefix).contains(ct@));
                } else {
                    assert(forall|l: int| 0 <= l < out.len()
                        ==> out.deep_view()[l] != ct@);
                    assert(!distinct_types(prefix).contains(ct@)) by {
                        if distinct_types(prefix).contains(ct@) {
                            let w = choose|w: int|
                                0 <= w < distinct_types(prefix).len()
                                    && distinct_types(prefix)[w] == ct@;
                            assert(out.deep_view()[w] == ct@);
                        }
                    }
                }
            }
            if !seen {
                out.push(ct.clone());
                proof {
                    let prefix = self.courses().subrange(0, i as int);
                    assert(out.deep_view() =~= distinct_types(prefix).push(ct@));
                }
            }
            i += 1;
        }
        proof {
            assert(self.courses().subrange(0, self.courses().len() as int) =~= self.courses());
        }
        out
    }
}

/// The distinct course-type tags of a course sequence, each once, in order
/// of first appearance.
pub open spec fn distinct_types(courses: Seq<Course>) -> Seq<Seq<char>>
    decreases courses.len(),
{
    if courses.len() == 0 {
        Seq::empty()
    } else {
        let rest = distinct_types(courses.drop_last());
        if rest.contains(courses.last().course_type@) {
            rest
        } else {
            rest.push(courses.last().course_type@)
        }
    }
}

/// In a well-formed store the entity counts fit the id type: the last
/// dense id equals the count.
pub proof fn lemma_store_lens(s: Store)
    requires
        s.wf(),
    ensures
        s.students().len() <= i64::MAX,
        s.courses().len() <= i64::MAX,
{
    if s.students().len() > 0 {
        assert(s.students()[s.students().len() - 1].id == s.students().len());
    }
    if s.courses().len() > 0 {
        assert(s.courses()[s.courses().len() - 1].id == s.courses().len());
    }
}

/// Every id bound on the rows of a sequence also bounds the rows that a
/// filter keeps.
proof fn lemma_filter_id_bound(ratings: Seq<Rating>, pred: spec_fn(Rating) -> bool, bound: int)
    requires
        forall|k: int| 0 <= k < ratings.len() ==> (#[trigger] ratings[k]).id < bound,
    ensures
        forall|k: int| 0 <= k < ratings.filter(pred).len()
            ==> (#[trigger] ratings.filter(pred)[k]).id < bound,
    decreases ratings.len(),
{
    reveal(Seq::filter);
    if ratings.len() > 0 {
        let prefix = ratings.drop_last();
        assert(forall|k: int| 0 <= k < prefix.len()
            ==> (#[trigger] prefix[k]).id < bound) by {
            assert(forall|k: int| 0 <= k < prefix.len() ==> prefix[k] == ratings[k]);
        }
        lemma_filter_id_bound(prefix, pred, bound);
        let out = ratings.filter(pred);
        let kept = prefix.filter(pred);
        assert forall|k: int| 0 <= k < out.len() implies (#[trigger] out[k]).id < bound by {
            if pred(ratings.last()) {
                assert(out == kept.push(ratings.last()));
                if k < kept.len() {
                    assert(out[k] == kept[k]);
                } else {
                    assert(out[k] == ratings.last());
                    assert(ratings.last() == ratings[ratings.len() - 1]);
                }
            } else {
                assert(out == kept);
                assert(out[k] == kept[k]);
            }
        }
    }
}

/// Filtering rating rows keeps referential validity and the strict id order.
proof fn lemma_ratings_filter_wf(
    ratings: Seq<Rating>,
    pred: spec_fn(Rating) -> bool,
    n_students: int,
    n_courses: int,
    next_id: int,
)
    requires
        ratings_wf(ratings, n_students, n_courses, next_id),
    ensures
        ratings_wf(ratings.filter(pred), n_students, n_courses, next_id),
    decreases ratings.len(),
{
    reveal(Seq::filter);
    if ratings.len() > 0 {
        let prefix = ratings.drop_last();
        let last = ratings.last();
        assert(forall|k: int| 0 <= k < prefix.len() ==> prefix[k] == ratings[k]);
        assert(ratings_wf(prefix, n_students, n_courses, next_id));
        lemma_ratings_filter_wf(prefix, pred, n_students, n_courses, next_id);
        if pred(last) {
            let kept = prefix.filter(pred);
            assert(last == ratings[ratings.len() - 1]);
            assert(forall|k: int| 0 <= k < prefix.len()
                ==> (#[trigger] prefix[k]).id < last.id);
            lemma_filter_id_bound(prefix, pred, last.id as int);
            assert(ratings.filter(pred) == kept.push(last));
            let out = kept.push(last);
            assert forall|k: int, l: int| 0 <= k < l < out.len()
                implies (#[trigger] out[k]).id < (#[trigger] out[l]).id by {
                if l < kept.len() {
                    assert(out[k] == kept[k] && out[l] == kept[l]);
                } else {
                    assert(out[k] == kept[k] && out[l] == last);
                }
            }
            assert forall|k: int| 0 <= k < out.len()
                implies 1 <= (#[trigger] out[k]).student <= n_students
                    && 1 <= out[k].course <= n_courses && out[k].id < next_id by {
                if k < kept.len() {
                    assert(out[k] == kept[k]);
                }
            }
        }
    }
}

/// What `find_student` returns: the first index whose name matches, in
/// range, or `None` when no name matches.
pub proof fn lemma_find_student_props(students: Seq<Student>, name: Seq<char>)
    ensures
        match find_student(students, name) {
            Some(i) => 0 <= i < students.len() && students[i].name@ == name
                && forall|j: int| 0 <= j < i ==> (#[trigger] students[j]).name@ != name,
            None => forall|j: int| 0 <= j < students.len()
                ==> (#[trigger] students[j]).name@ != name,
        },
    decreases students.len(),
{
    if students.len() > 0 && students[0].name@ != name {
        let rest = students.drop_first();
        lemma_find_student_props(rest, name);
        assert(forall|j: int| 0 <= j < rest.len() ==> rest[j] == students[j + 1]);
        match find_student(students, name) {
            Some(i) => {
                assert(students[i] == rest[i - 1]);
                assert forall|j: int| 0 <= j < i implies (#[trigger] students[j]).name@
                    != name by {
                    if j > 0 {
                        assert(students[j] == rest[j - 1]);
                    }
                }
            },
            None => {
                assert forall|j: int| 0 <= j < students.len()
                    implies (#[trigger] students[j]).name@ != name by {
                    if j > 0 {
                        assert(students[j] == rest[j - 1]);
                    }
                }
            },
        }
    }
}

/// What `find_course` returns: the first index whose code matches, in
/// range, or `None` when no code matches.
pub proof fn lemma_find_course_props(courses: Seq<Course>, code: Seq<char>)
    ensures
        match find_course(courses, code) {
            Some(i) => 0 <= i < courses.len() && courses[i].code@ == code
                && forall|j: int| 0 <= j < i ==> (#[trigger] courses[j]).code@ != code,
            None => forall|j: int| 0 <= j < courses.len()
                ==> (#[trigger] courses[j]).code@ != code,
        },
    decreases courses.len(),
{
    if courses.len() > 0 && courses[0].code@ != code {
        let rest = courses.drop_first();
        lemma_find_course_props(rest, code);
        assert(forall|j: int| 0 <= j < rest.len() ==> rest[j] == courses[j + 1]);
        match find_course(courses, code) {
            Some(i) => {
                assert(courses[i] == rest[i - 1]);
                assert forall|j: int| 0 <= j < i implies (#[trigger] courses[j]).code@
                    != code by {
                    if j > 0 {
                        assert(courses[j] == rest[j - 1]);
                    }
                }
            },
            None => {
                assert forall|j: int| 0 <= j < courses.len()
                    implies (#[trigger] courses[j]).code@ != code by {
                    if j > 0 {
                        assert(courses[j] == rest[j - 1]);
                    }
                }
            },
        }
    }
}

/// A scan that stopped at the first index whose name matches pins down
/// `find_student`.
pub proof fn lemma_find_student_hit(students: Seq<Student>, name: Seq<char>, i: int)
    requires
        0 <= i < students.len(),
        students[i].name@ == name,
        forall|j: int| 0 <= j < i ==> (#[trigger] students[j]).name@ != name,
    ensures
        find_student(students, name) == Some(i),
    decreases i,
{
    if i == 0 {
    } else {
        assert(students.drop_first()[i - 1] == students[i]);
        assert(forall|j: int| 0 <= j < i - 1
            ==> (#[trigger] students.drop_first()[j]).name@ != name);
        lemma_find_student_hit(students.drop_first(), name, i - 1);
    }
}

/// A scan that matched nowhere pins `find_student` to `None`.
pub proof fn lemma_find_student_miss(students: Seq<Student>, name: Seq<char>)
    requires
        forall|j: int| 0 <= j < students.len() ==> (#[trigger] students[j]).name@ != name,
    ensures
        find_student(students, name) is None,
    decreases students.len(),
{
    if students.len() > 0 {
        assert(forall|j: int| 0 <= j < students.len() - 1
            ==> (#[trigger] students.drop_first()[j]).name@ != name);
        lemma_find_student_miss(students.drop_first(), name);
    }
}

/// A scan that stopped at the first index whose code matches pins down
/// `find_course`.
pub proof fn lemma_find_course_hit(courses: Seq<Course>, code: Seq<char>, i: int)
    requires
        0 <= i < courses.len(),
        courses[i].code@ == code,
        forall|j: int| 0 <= j < i ==> (#[trigger] courses[j]).code@ != code,
    ensures
        find_course(courses, code) == Some(i),
    decreases i,
{
    if i == 0 {
    } else {
        assert(courses.drop_first()[i - 1] == courses[i]);
        assert(forall|j: int| 0 <= j < i - 1
            ==> (#[trigger] courses.drop_first()[j]).code@ != code);
        lemma_find_course_hit(courses.drop_first(), code, i - 1);
    }
}

/// A scan that matched nowhere pins `find_course` to `None`.
pub proof fn lemma_find_course_miss(courses: Seq<Course>, code: Seq<char>)
    requires
        forall|j: int| 0 <= j < courses.len() ==> (#[trigger] courses[j]).code@ != code,
    ensures
        find_course(courses, code) is None,
    decreases courses.len(),
{
    if courses.len() > 0 {
        assert(forall|j: int| 0 <= j < courses.len() - 1
            ==> (#[trigger] courses.drop_first()[j]).code@ != code);
        lemma_find_course_miss(courses.drop_first(), code);
    }
}

} // verus!
