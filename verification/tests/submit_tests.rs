use ratings_core::store::{Error, Store};

fn s(x: &str) -> String {
    x.to_owned()
}

fn demo_store() -> Store {
    let mut st = Store::new();
    st.add_student(s("Alice")).unwrap();
    st.add_student(s("Bob")).unwrap();
    st.add_course(s("CS101"), s("Intro"), s("core")).unwrap();
    st.add_course(s("MA201"), s("Calculus"), s("math")).unwrap();
    st
}

#[test]
fn submission_stores_one_row_per_pair() {
    let mut st = demo_store();
    let name = s("Alice");
    assert_eq!(st.post_rating_route(Some(&name), "CS101=4&MA201=5"), Ok(()));
    let rows = st.get_student_ratings(1);
    assert_eq!(rows.len(), 2);
    assert_eq!((rows[0].student, rows[0].course, rows[0].rating), (1, 1, 4));
    assert_eq!((rows[1].student, rows[1].course, rows[1].rating), (1, 2, 5));
}

#[test]
fn submission_without_token_is_identity_missing() {
    let mut st = demo_store();
    assert_eq!(
        st.post_rating_route(None, "CS101=4"),
        Err(Error::IdentityMissing)
    );
}

#[test]
fn submission_for_unknown_student_is_not_found() {
    let mut st = demo_store();
    let name = s("Carol");
    assert_eq!(
        st.post_rating_route(Some(&name), "CS101=4"),
        Err(Error::NotFound)
    );
}

#[test]
fn submission_with_unknown_course_changes_nothing() {
    let mut st = demo_store();
    let name = s("Alice");
    st.post_rating_route(Some(&name), "CS101=4").unwrap();
    // One bad code fails the whole submission; the old rating set stays.
    assert_eq!(
        st.post_rating_route(Some(&name), "CS101=5&PH999=3"),
        Err(Error::NotFound)
    );
    let rows = st.get_student_ratings(1);
    assert_eq!(rows.len(), 1);
    assert_eq!(rows[0].rating, 4);
}

#[test]
fn malformed_payload_without_separator() {
    let mut st = demo_store();
    let name = s("Alice");
    assert_eq!(
        st.post_rating_route(Some(&name), "CS101"),
        Err(Error::MalformedPayload)
    );
}

#[test]
fn malformed_payload_leaves_old_ratings_intact() {
    let mut st = demo_store();
    let name = s("Alice");
    st.post_rating_route(Some(&name), "CS101=4").unwrap();
    // The payload is validated before the old rows are deleted, so a
    // malformed submission leaves the prior rating set fully intact.
    assert_eq!(
        st.post_rating_route(Some(&name), "MA201"),
        Err(Error::MalformedPayload)
    );
    let rows = st.get_student_ratings(1);
    assert_eq!(rows.len(), 1);
    assert_eq!((rows[0].course, rows[0].rating), (1, 4));
}

#[test]
fn malformed_payload_value_not_numeric() {
    let mut st = demo_store();
    let name = s("Alice");
    assert_eq!(
        st.post_rating_route(Some(&name), "CS101=abc"),
        Err(Error::MalformedPayload)
    );
}

#[test]
fn malformed_payload_value_too_large() {
    let mut st = demo_store();
    let name = s("Alice");
    assert_eq!(
        st.post_rating_route(Some(&name), "CS101=256"),
        Err(Error::MalformedPayload)
    );
}

#[test]
fn malformed_payload_value_empty() {
    let mut st = demo_store();
    let name = s("Alice");
    assert_eq!(
        st.post_rating_route(Some(&name), "CS101="),
        Err(Error::MalformedPayload)
    );
}

#[test]
fn malformed_payload_empty_string() {
    let mut st = demo_store();
    let name = s("Alice");
    assert_eq!(
        st.post_rating_route(Some(&name), ""),
        Err(Error::MalformedPayload)
    );
}

#[test]
fn payload_value_bounds_are_inclusive() {
    let mut st = demo_store();
    let name = s("Alice");
    assert_eq!(st.post_rating_route(Some(&name), "CS101=0&MA201=255"), Ok(()));
    let rows = st.get_student_ratings(1);
    assert_eq!(rows[0].rating, 0);
    assert_eq!(rows[1].rating, 255);
}

#[test]
fn payload_value_leading_zeros() {
    let mut st = demo_store();
    let name = s("Alice");
    assert_eq!(st.post_rating_route(Some(&name), "CS101=007"), Ok(()));
    assert_eq!(st.get_student_ratings(1)[0].rating, 7);
}

#[test]
fn payload_empty_key_is_unknown_course() {
    let mut st = demo_store();
    let name = s("Alice");
    // "=5" parses to the empty course code, which resolves to nothing.
    assert_eq!(
        st.post_rating_route(Some(&name), "=5"),
        Err(Error::NotFound)
    );
}

#[test]
fn resubmission_replaces_the_whole_set() {
    let mut st = demo_store();
    let name = s("Alice");
    st.post_rating_route(Some(&name), "CS101=5").unwrap();
    st.post_rating_route(Some(&name), "MA201=3").unwrap();
    // Replace, not append: the CS101 rating is gone.
    let rows = st.get_student_ratings(1);
    assert_eq!(rows.len(), 1);
    assert_eq!((rows[0].course, rows[0].rating), (2, 3));
    let m = st.get_ratings_matrix();
    assert_eq!(m[0], vec![0, 3]);
}

#[test]
fn resubmitting_the_same_set_is_idempotent() {
    let mut st = demo_store();
    let name = s("Alice");
    st.post_rating_route(Some(&name), "CS101=4&MA201=2").unwrap();
    let once = st.get_ratings_matrix();
    st.post_rating_route(Some(&name), "CS101=4&MA201=2").unwrap();
    let twice = st.get_ratings_matrix();
    assert_eq!(once, twice);
}

#[test]
fn trailing_separator_is_malformed() {
    let mut st = demo_store();
    let name = s("Alice");
    assert_eq!(
        st.post_rating_route(Some(&name), "CS101=4&"),
        Err(Error::MalformedPayload)
    );
}

#[test]
fn double_separator_in_value_is_malformed() {
    let mut st = demo_store();
    let name = s("Alice");
    // The value is everything after the first `=` and must be numeric.
    assert_eq!(
        st.post_rating_route(Some(&name), "CS101=4=5"),
        Err(Error::MalformedPayload)
    );
}

#[test]
fn repeated_code_is_rejected_whole() {
    let mut st = demo_store();
    let name = s("Alice");
    st.post_rating_route(Some(&name), "CS101=2").unwrap();
    // A pair set names each course once; a payload repeating a code is
    // rejected whole and the prior rating set stays, keeping at most one
    // rating row per (student, course) pair.
    assert_eq!(
        st.post_rating_route(Some(&name), "CS101=1&CS101=3"),
        Err(Error::MalformedPayload)
    );
    let rows = st.get_student_ratings(1);
    assert_eq!(rows.len(), 1);
    assert_eq!((rows[0].course, rows[0].rating), (1, 2));
    let m = st.get_ratings_matrix();
    assert_eq!(m[0][0], 2);
}

#[test]
fn repeated_unknown_code_is_still_malformed() {
    let mut st = demo_store();
    let name = s("Alice");
    // The repeated-code check precedes course resolution, so even an
    // unknown code repeated twice is a malformed pair set, not NotFound.
    assert_eq!(
        st.post_rating_route(Some(&name), "PH999=1&PH999=2"),
        Err(Error::MalformedPayload)
    );
}
