//! The narrow surface the core exposes to its HTTP and templating
//! collaborators: plain input and output records, and one function per
//! route-shaped operation. Transport concerns (cookies, forms, rendering)
//! stay with the caller; everything here is storage rules and read-side
//! projection.

use vstd::prelude::*;
use crate::store::{
    distinct_types, find_student, has_course_code_name, Course, Error, Store, Student,
};

verus! {

/// A course registration request: code, display name and category tag.
pub struct NewCourse {
    pub code: String,
    pub name: String,
    pub course_type: String,
}

/// A student registration request: the student name and up to two course
/// category tags the student wants to rate.
pub struct StudentData {
    pub name: String,
    pub type1: String,
    pub type2: String,
}

/// The course catalogue, for listing.
pub struct CoursesList {
    pub courses: Vec<Course>,
}

/// The distinct course category tags, for a selection control.
pub struct TypeSelection {
    pub types: Vec<String>,
}

/// The courses a student may rate: those whose category tag matches one of
/// the two requested tags.
pub struct RatingsForm {
    pub courses: Vec<Course>,
}

/// The courses whose category tag is `t1` or `t2`, in catalogue order.
pub open spec fn courses_of_types(courses: Seq<Course>, t1: Seq<char>, t2: Seq<char>) -> Seq<
    Course,
> {
    courses.filter(|c: Course| c.course_type@ == t1 || c.course_type@ == t2)
}

impl Store {
    /// The course catalogue as the listing page shows it.
    pub fn course_list_route(&self) -> (r: CoursesList)
        ensures
            r.courses@ == self.courses(),
    {
        CoursesList { courses: self.get_courses() }
    }

    /// The category tags as the selection page shows them: each stored tag
    /// once, in order of first appearance.
    pub fn course_types_select_route(&self) -> (r: TypeSelection)
        ensures
            r.types.deep_view() == distinct_types(self.courses()),
    {
        TypeSelection { types: self.get_types() }
    }

    /// Registers the course described by a registration request.
    pub fn add_course_route(&mut self, course_data: NewCourse) -> (r: Result<(), Error>)
        requires
            old(self).wf(),
            old(self).courses().len() + 1 <= i64::MAX,
        ensures
            final(self).wf(),
            final(self).students() == old(self).students(),
            final(self).ratings() == old(self).ratings(),
            final(self).next_rating_id() == old(self).next_rating_id(),
            match r {
                Ok(()) => {
                    &&& !has_course_code_name(
                        old(self).courses(),
                        course_data.code@,
                        course_data.name@,
                    )
                    &&& final(self).courses() == old(self).courses().push(
                        Course {
                            id: (old(self).courses().len() + 1) as i64,
                            code: course_data.code,
                            name: course_data.name,
                            course_type: course_data.course_type,
                        },
                    )
                },
                Err(e) => {
                    &&& e == Error::AlreadyExists
                    &&& has_course_code_name(
                        old(self).courses(),
                        course_data.code@,
                        course_data.name@,
                    )
                    &&& final(self).courses() == old(self).courses()
                },
            },
    {
        self.add_course(course_data.code, course_data.name, course_data.course_type)
    }

    /// Registers a student and hands back the rating form: the courses
    /// whose category tag matches one of the two requested tags. Under the
    /// reject-duplicates registration policy an already taken name fails
    /// with `AlreadyExists` and changes nothing.
    #[verifier::loop_isolation(false)]
    pub fn add_student_route(&mut self, student_data: StudentData) -> (r: Result<
        RatingsForm,
        Error,
    >)
        requires
            old(self).wf(),
            old(self).students().len() + 1 <= i64::MAX,
        ensures
            final(self).wf(),
            final(self).courses() == old(self).courses(),
            final(self).ratings() == old(self).ratings(),
            final(self).next_rating_id() == old(self).next_rating_id(),
            match r {
                Ok(form) => {
                    &&& find_student(old(self).students(), student_data.name@) is None
                    &&& final(self).students() == old(self).students().push(
                        Student {
                            id: (old(self).students().len() + 1) as i64,
                            name: student_data.name,
                        },
                    )
                    &&& form.courses@ == courses_of_types(
                        old(self).courses(),
                        student_data.type1@,
                        student_data.type2@,
                    )
                },
                Err(e) => {
                    &&& e == Error::AlreadyExists
                    &&& find_student(old(self).students(), student_data.name@) is Some
                    &&& final(self).students() == old(self).students()
                },
            },
    {
        let StudentData { name, type1, type2 } = student_data;
        match self.add_student(name) {
            Err(e) => {
                return Err(e);
            },
            Ok(()) => {},
        }
        let mut courses: Vec<Course> = Vec::new();
        let mut i: usize = 0;
        let ghost pred = |c: Course| c.course_type@ == type1@ || c.course_type@ == type2@;
        proof {
            assert(self.courses().subrange(0, 0) =~= Seq::<Course>::empty());
            reveal(Seq::filter);
        }
        while i < self.get_course_count()
            invariant
                i <= self.courses().len(),
                courses@ == self.courses().subrange(0, i as int).filter(pred),
            decreases self.courses().len() - i,
        {
            proof {
                assert(self.courses().subrange(0, i + 1).drop_last() =~= self.courses().subrange(
                    0,
                    i as int,
                ));
                assert(self.courses().subrange(0, i + 1).last() == self.courses()[i as int]);
                reveal(Seq::filter);
            }
            let course = self.courses_ref()[i].clone();
            if course.course_type == type1 || course.course_type == type2 {
                courses.push(course);
            }
            i += 1;
        }
        proof {
            assert(self.courses().subrange(0, self.courses().len() as int) =~= self.courses());
        }
        Ok(RatingsForm { courses })
    }
}

} // verus!
