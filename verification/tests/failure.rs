use toast::failure::{system, user, Failure};

#[test]
fn failure_text() {
    assert_eq!(Failure::Interrupted.to_string(), "Interrupted.");
    assert_eq!(Failure::User("Bad.".to_owned(), None).to_string(), "Bad.");
    assert_eq!(
        Failure::System("Broken.".to_owned(), Some("disk full".to_owned())).to_string(),
        "Broken. Reason: disk full"
    );
}

#[test]
fn failure_constructors() {
    assert_eq!(
        system("Unable to read.", "oops".to_owned()),
        Failure::System("Unable to read.".to_owned(), Some("oops".to_owned()))
    );
    assert_eq!(
        user("Syntax error.", "line 1".to_owned()),
        Failure::User("Syntax error.".to_owned(), Some("line 1".to_owned()))
    );
}

#[test]
fn failure_source() {
    assert_eq!(Failure::Interrupted.source(), None);
    assert_eq!(Failure::User("Bad.".to_owned(), None).source(), None);
    assert_eq!(
        Failure::System("Broken.".to_owned(), Some("disk full".to_owned())).source(),
        Some(&"disk full".to_owned())
    );
}
