//! The ways in which the program can fail.
use vstd::prelude::*;

verus! {

/// We distinguish between three kinds of failures:
/// 1. The user interrupted the program (e.g., by SIGINT or SIGTERM).
/// 2. Some system operation (e.g., creating a container) failed.
/// 3. There was a problem with the user's input (e.g., their task failed).
///
/// A failure may carry the text of the error that caused it.
#[derive(Debug, PartialEq, Eq)]
pub enum Failure {
    Interrupted,
    System(String, Option<String>),
    User(String, Option<String>),
}

/// The text shown for a failure.
pub open spec fn failure_text(f: Failure) -> Seq<char> {
    match f {
        Failure::Interrupted => "Interrupted."@,
        Failure::System(message, None) => message@,
        Failure::User(message, None) => message@,
        Failure::System(message, Some(source)) => message@ + " Reason: "@ + source@,
        Failure::User(message, Some(source)) => message@ + " Reason: "@ + source@,
    }
}

impl Failure {
    /// The text of the error that caused this failure, if there is one.
    pub fn source(&self) -> (r: Option<&String>)
        ensures
            match *self {
                Failure::Interrupted => r is None,
                Failure::System(_, source) | Failure::User(_, source) => match source {
                    Some(s) => r == Some(&s),
                    None => r is None,
                },
            },
    {
        match self {
            Failure::Interrupted => None,
            Failure::System(_, source) => source.as_ref(),
            Failure::User(_, source) => source.as_ref(),
        }
    }

    /// The text shown for this failure: its message, followed by the reason if it has one.
    pub fn to_string(&self) -> (res: String)
        ensures
            res@ == failure_text(*self),
    {
        proof {
            reveal_strlit("Interrupted.");
            reveal_strlit(" Reason: ");
        }
        match self {
            Failure::Interrupted => String::from_str("Interrupted."),
            Failure::System(message, None) => message.clone(),
            Failure::User(message, None) => message.clone(),
            Failure::System(message, Some(source)) => {
                let mut res = message.clone();
                res.append(" Reason: ");
                res.append(source.as_str());
                res
            },
            Failure::User(message, Some(source)) => {
                let mut res = message.clone();
                res.append(" Reason: ");
                res.append(source.as_str());
                res
            },
        }
    }
}

/// A system failure with `message`, caused by an error whose text is `source`.
pub fn system(message: &str, source: String) -> (res: Failure)
    ensures
        res matches Failure::System(m, Some(s)) && m@ == message@ && s@ == source@,
{
    Failure::System(String::from_str(message), Some(source))
}

/// A user failure with `message`, caused by an error whose text is `source`.
pub fn user(message: &str, source: String) -> (res: Failure)
    ensures
        res matches Failure::User(m, Some(s)) && m@ == message@ && s@ == source@,
{
    Failure::User(String::from_str(message), Some(source))
}

} // verus!
