use ratings_core::store::{Error, Store};

fn s(x: &str) -> String {
    x.to_owned()
}

#[test]
fn register_students_dense_ids() {
    let mut st = Store::new();
    assert_eq!(st.add_student(s("Alice")), Ok(()));
    assert_eq!(st.add_student(s("Bob")), Ok(()));
    assert_eq!(st.get_student_count(), 2);
    let students = st.get_students();
    assert_eq!(students[0].id, 1);
    assert_eq!(students[0].name, "Alice");
    assert_eq!(students[1].id, 2);
    assert_eq!(students[1].name, "Bob");
}

#[test]
fn duplicate_student_rejected() {
    let mut st = Store::new();
    assert_eq!(st.add_student(s("Alice")), Ok(()));
    assert_eq!(st.add_student(s("Alice")), Err(Error::AlreadyExists));
    assert_eq!(st.get_student_count(), 1);
}

#[test]
fn duplicate_course_rejected_state_unchanged() {
    let mut st = Store::new();
    assert_eq!(st.add_course(s("CS101"), s("Intro"), s("core")), Ok(()));
    // Identical (code, name) pair: rejected, nothing altered.
    assert_eq!(
        st.add_course(s("CS101"), s("Intro"), s("elective")),
        Err(Error::AlreadyExists)
    );
    assert_eq!(st.get_course_count(), 1);
    let courses = st.get_courses();
    assert_eq!(courses.len(), 1);
    assert_eq!(courses[0].course_type, "core");
}

#[test]
fn same_code_different_name_allowed() {
    let mut st = Store::new();
    assert_eq!(st.add_course(s("CS101"), s("Intro"), s("core")), Ok(()));
    assert_eq!(st.add_course(s("CS101"), s("Advanced"), s("core")), Ok(()));
    assert_eq!(st.add_course(s("CS102"), s("Intro"), s("core")), Ok(()));
    assert_eq!(st.get_course_count(), 3);
}

#[test]
fn resolver_returns_registered_ids() {
    let mut st = Store::new();
    st.add_student(s("Alice")).unwrap();
    st.add_student(s("Bob")).unwrap();
    st.add_course(s("CS101"), s("Intro"), s("core")).unwrap();
    st.add_course(s("MA201"), s("Calculus"), s("math")).unwrap();
    assert_eq!(st.get_student_id(&s("Alice")), Ok(1));
    assert_eq!(st.get_student_id(&s("Bob")), Ok(2));
    assert_eq!(st.get_course_id(&s("CS101")), Ok(1));
    assert_eq!(st.get_course_id(&s("MA201")), Ok(2));
}

#[test]
fn resolver_misses_are_not_found() {
    let mut st = Store::new();
    st.add_student(s("Alice")).unwrap();
    st.add_course(s("CS101"), s("Intro"), s("core")).unwrap();
    assert_eq!(st.get_student_id(&s("Carol")), Err(Error::NotFound));
    assert_eq!(st.get_course_id(&s("PH101")), Err(Error::NotFound));
}

#[test]
fn resolver_matching_is_case_sensitive() {
    let mut st = Store::new();
    st.add_student(s("Alice")).unwrap();
    st.add_course(s("CS101"), s("Intro"), s("core")).unwrap();
    assert_eq!(st.get_student_id(&s("alice")), Err(Error::NotFound));
    assert_eq!(st.get_course_id(&s("cs101")), Err(Error::NotFound));
}

#[test]
fn rating_with_unknown_reference_is_rejected() {
    let mut st = Store::new();
    st.add_student(s("Alice")).unwrap();
    st.add_course(s("CS101"), s("Intro"), s("core")).unwrap();
    assert_eq!(st.add_rating(2, 1, 5), Err(Error::ForeignKeyViolation));
    assert_eq!(st.add_rating(1, 2, 5), Err(Error::ForeignKeyViolation));
    assert_eq!(st.add_rating(0, 1, 5), Err(Error::ForeignKeyViolation));
    assert_eq!(st.add_rating(-1, 1, 5), Err(Error::ForeignKeyViolation));
    assert_eq!(st.get_student_ratings(1).len(), 0);
    assert_eq!(st.add_rating(1, 1, 5), Ok(()));
    assert_eq!(st.get_student_ratings(1).len(), 1);
}

#[test]
fn reset_ratings_removes_only_that_student() {
    let mut st = Store::new();
    st.add_student(s("Alice")).unwrap();
    st.add_student(s("Bob")).unwrap();
    st.add_course(s("CS101"), s("Intro"), s("core")).unwrap();
    st.add_rating(1, 1, 4).unwrap();
    st.add_rating(2, 1, 2).unwrap();
    st.reset_student_ratings(1);
    assert_eq!(st.get_student_ratings(1).len(), 0);
    let bobs = st.get_student_ratings(2);
    assert_eq!(bobs.len(), 1);
    assert_eq!(bobs[0].student, 2);
    assert_eq!(bobs[0].rating, 2);
}

#[test]
fn reset_ratings_is_idempotent() {
    let mut st = Store::new();
    st.add_student(s("Alice")).unwrap();
    st.reset_student_ratings(1);
    st.reset_student_ratings(1);
    st.reset_student_ratings(42);
    assert_eq!(st.get_student_ratings(1).len(), 0);
}

#[test]
fn types_are_listed_once_in_first_appearance_order() {
    let mut st = Store::new();
    st.add_course(s("CS101"), s("Intro"), s("core")).unwrap();
    st.add_course(s("MA201"), s("Calculus"), s("math")).unwrap();
    st.add_course(s("CS201"), s("Data"), s("core")).unwrap();
    st.add_course(s("PH101"), s("Mechanics"), s("science")).unwrap();
    assert_eq!(st.get_types(), vec![s("core"), s("math"), s("science")]);
}

#[test]
fn error_messages_name_the_failure() {
    assert!(Error::NotFound.message().contains("probably incorrect"));
    assert!(Error::MalformedPayload.message().contains("parse"));
}
