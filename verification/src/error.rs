//! Error values: a message plus an optional chain of causes.
use vstd::prelude::*;

verus! {

/// An error message with an optional inner cause.
#[derive(Debug)]
pub struct ErrorMessage {
    message: String,
    inner: Option<Box<ErrorMessage>>,
}

impl ErrorMessage {
    /// The chain of messages, outermost first.
    pub closed spec fn spec_messages(self) -> Seq<Seq<char>>
        decreases self,
    {
        match self.inner {
            None => seq![self.message@],
            Some(b) => seq![self.message@] + b.spec_messages(),
        }
    }

    pub closed spec fn spec_message(self) -> Seq<char> {
        self.message@
    }

    /// Wraps a cause under a new message.
    pub fn new(message: String, cause: ErrorMessage) -> (r: Self)
        ensures
            r.spec_message() == message@,
            r.spec_messages() == seq![message@] + cause.spec_messages(),
    {
        ErrorMessage { message, inner: Some(Box::new(cause)) }
    }

    pub fn message(&self) -> (r: &String)
        ensures
            r@ == self.spec_message(),
    {
        &self.message
    }

    /// The direct cause, if one was recorded.
    pub fn source(&self) -> (r: Option<&ErrorMessage>)
        ensures
            match r {
                Some(c) => c.spec_messages() == self.spec_messages().drop_first()
                    && self.spec_messages().len() > 1,
                None => self.spec_messages() == seq![self.spec_message()],
            },
    {
        match &self.inner {
            Some(b) => {
                assert(b.spec_messages() =~= self.spec_messages().drop_first());
                Some(&*b)
            },
            None => None,
        }
    }

    /// All messages of the chain, outermost first.
    pub fn traceback(&self) -> (r: Vec<String>)
        ensures
            r.deep_view() == self.spec_messages(),
        decreases *self,
    {
        let mut r: Vec<String> = Vec::new();
        r.push(self.message.clone());
        match &self.inner {
            None => {
                assert(r.deep_view() =~= seq![self.message@]);
                r
            },
            Some(b) => {
                let mut rest = b.traceback();
                r.append(&mut rest);
                assert(r.deep_view() =~= seq![self.message@] + b.spec_messages());
                r
            },
        }
    }
}

impl From<String> for ErrorMessage {
    fn from(t: String) -> (r: Self) {
        ErrorMessage { message: t, inner: None }
    }
}

impl vstd::std_specs::convert::FromSpecImpl<String> for ErrorMessage {
    open spec fn obeys_from_spec() -> bool {
        true
    }

    closed spec fn from_spec(t: String) -> Self {
        ErrorMessage { message: t, inner: None }
    }
}

/// An error whose message is the given text, with no recorded cause.
pub fn message_error(message: String) -> (r: ErrorMessage)
    ensures
        r.spec_message() == message@,
        r.spec_messages() == seq![message@],
{
    let r = ErrorMessage { message, inner: None };
    assert(r.spec_messages() =~= seq![r.spec_message()]);
    r
}

} // verus!
