use vstd::prelude::*;

verus! {

/// An error of the viewer: a message and the error that caused it.
#[derive(Debug)]
pub struct Error {
    pub message: String,
    pub source: Option<Box<Error>>,
}

impl Error {
    pub fn new(message: String) -> (r: Self)
        ensures
            r.message == message,
            r.source is None,
    {
        Error { message, source: None }
    }

    pub fn with_source(message: String, source: Error) -> (r: Self)
        ensures
            r.message == message,
            r.source == Some(Box::new(source)),
    {
        Error { message, source: Some(Box::new(source)) }
    }

    pub fn message(&self) -> (r: &str)
        ensures
            r@ == self.message@,
    {
        self.message.as_str()
    }

    pub fn source(&self) -> (r: Option<&Error>)
        ensures
            r matches Some(e) ==> self.source == Some(Box::new(*e)),
            r is None ==> self.source is None,
    {
        match &self.source {
            Some(e) => Some(&**e),
            None => None,
        }
    }

    /// Wraps a decoding error, keeping its message as the cause.
    pub fn from_ilbm_error(e: crate::ilbm::Error) -> (r: Self)
        ensures
            r.message@ == "ILBM error"@,
            r.source matches Some(s) && s.message == e.message,
    {
        let text = "ILBM error";
        proof {
            reveal_strlit("ILBM error");
        }
        Error::with_source(text.to_owned(), Error::new(e.message))
    }
}

} // verus!
