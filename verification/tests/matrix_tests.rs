use ratings_core::routes::{NewCourse, StudentData};
use ratings_core::store::{Error, Store};

fn s(x: &str) -> String {
    x.to_owned()
}

#[test]
fn empty_store_gives_empty_matrix() {
    let st = Store::new();
    let m = st.get_ratings_matrix();
    assert_eq!(m.len(), 0);
}

#[test]
fn matrix_dimensions_follow_the_counts() {
    let mut st = Store::new();
    st.add_student(s("Alice")).unwrap();
    st.add_student(s("Bob")).unwrap();
    st.add_student(s("Carol")).unwrap();
    st.add_course(s("CS101"), s("Intro"), s("core")).unwrap();
    st.add_course(s("MA201"), s("Calculus"), s("math")).unwrap();
    // No rating stored at all: the matrix is still dense and zero-filled.
    let m = st.get_ratings_matrix();
    assert_eq!(m.len(), 3);
    for row in &m {
        assert_eq!(row.len(), 2);
        assert_eq!(row, &vec![0, 0]);
    }
    assert_eq!(m.len(), st.get_student_count());
    assert_eq!(m[0].len(), st.get_course_count());
}

#[test]
fn matrix_example_one_submission() {
    // Students {Alice -> 1, Bob -> 2}, courses {CS101 -> 1, MA201 -> 2};
    // Alice submits CS101=4, Bob submits nothing.
    let mut st = Store::new();
    st.add_student(s("Alice")).unwrap();
    st.add_student(s("Bob")).unwrap();
    st.add_course(s("CS101"), s("Intro"), s("core")).unwrap();
    st.add_course(s("MA201"), s("Calculus"), s("math")).unwrap();
    let name = s("Alice");
    st.post_rating_route(Some(&name), "CS101=4").unwrap();
    let m = st.get_ratings_matrix();
    assert_eq!(m, vec![vec![4, 0], vec![0, 0]]);
}

#[test]
fn row_is_nonzero_exactly_at_submitted_courses() {
    let mut st = Store::new();
    st.add_student(s("Alice")).unwrap();
    st.add_course(s("CS101"), s("Intro"), s("core")).unwrap();
    st.add_course(s("MA201"), s("Calculus"), s("math")).unwrap();
    st.add_course(s("PH101"), s("Mechanics"), s("science")).unwrap();
    let name = s("Alice");
    st.post_rating_route(Some(&name), "PH101=2&CS101=5").unwrap();
    let m = st.get_ratings_matrix();
    assert_eq!(m, vec![vec![5, 0, 2]]);
}

#[test]
fn rows_of_different_students_are_independent() {
    let mut st = Store::new();
    st.add_student(s("Alice")).unwrap();
    st.add_student(s("Bob")).unwrap();
    st.add_course(s("CS101"), s("Intro"), s("core")).unwrap();
    st.add_course(s("MA201"), s("Calculus"), s("math")).unwrap();
    let alice = s("Alice");
    let bob = s("Bob");
    st.post_rating_route(Some(&alice), "CS101=1").unwrap();
    st.post_rating_route(Some(&bob), "MA201=255").unwrap();
    let m = st.get_ratings_matrix();
    assert_eq!(m, vec![vec![1, 0], vec![0, 255]]);
}

#[test]
fn course_list_route_lists_the_catalogue() {
    let mut st = Store::new();
    st.add_course_route(NewCourse {
        code: s("CS101"),
        name: s("Intro"),
        course_type: s("core"),
    })
    .unwrap();
    let list = st.course_list_route();
    assert_eq!(list.courses.len(), 1);
    assert_eq!(list.courses[0].code, "CS101");
    assert_eq!(list.courses[0].id, 1);
}

#[test]
fn add_course_route_rejects_duplicates() {
    let mut st = Store::new();
    let course = |t: &str| NewCourse { code: s("CS101"), name: s("Intro"), course_type: s(t) };
    assert_eq!(st.add_course_route(course("core")), Ok(()));
    assert_eq!(st.add_course_route(course("elective")), Err(Error::AlreadyExists));
}

#[test]
fn course_types_select_route_lists_distinct_tags() {
    let mut st = Store::new();
    st.add_course(s("CS101"), s("Intro"), s("core")).unwrap();
    st.add_course(s("CS201"), s("Data"), s("core")).unwrap();
    st.add_course(s("MA201"), s("Calculus"), s("math")).unwrap();
    let sel = st.course_types_select_route();
    assert_eq!(sel.types, vec![s("core"), s("math")]);
}

#[test]
fn student_form_filters_courses_by_type() {
    let mut st = Store::new();
    st.add_course(s("CS101"), s("Intro"), s("core")).unwrap();
    st.add_course(s("MA201"), s("Calculus"), s("math")).unwrap();
    st.add_course(s("PH101"), s("Mechanics"), s("science")).unwrap();
    let form = st
        .add_student_route(StudentData {
            name: s("Alice"),
            type1: s("core"),
            type2: s("science"),
        })
        .unwrap();
    let codes: Vec<&str> = form.courses.iter().map(|c| c.code.as_str()).collect();
    assert_eq!(codes, vec!["CS101", "PH101"]);
    assert_eq!(st.get_student_id(&s("Alice")), Ok(1));
}

#[test]
fn student_form_rejects_taken_name() {
    let mut st = Store::new();
    st.add_student(s("Alice")).unwrap();
    let r = st.add_student_route(StudentData {
        name: s("Alice"),
        type1: s("core"),
        type2: s("core"),
    });
    assert!(matches!(r, Err(Error::AlreadyExists)));
    assert_eq!(st.get_student_count(), 1);
}
