use vstd::prelude::*;

verus! {

/// Errors that can occur anywhere in the cleaning pipeline. The cardinal rule is that we
/// never emit a corrupt file: on any error the caller writes nothing.
#[derive(Debug, PartialEq, Eq)]
pub enum CoreError {
    /// An I/O failure, with its message.
    Io(String),
    UnsupportedFormat(String),
    Parse(String),
    Encoding(String),
    /// The post-edit structural self-check failed: cleaning would have changed document
    /// structure. We abort rather than risk corrupting the file.
    SelfCheck(String),
    NotImplemented(String),
}

}

verus! {

/// The mathematical content of an error.
pub enum CoreErrorView {
    Io(Seq<char>),
    UnsupportedFormat(Seq<char>),
    Parse(Seq<char>),
    Encoding(Seq<char>),
    SelfCheck(Seq<char>),
    NotImplemented(Seq<char>),
}

impl View for CoreError {
    type V = CoreErrorView;

    open spec fn view(&self) -> CoreErrorView {
        match self {
            CoreError::Io(m) => CoreErrorView::Io(m@),
            CoreError::UnsupportedFormat(m) => CoreErrorView::UnsupportedFormat(m@),
            CoreError::Parse(m) => CoreErrorView::Parse(m@),
            CoreError::Encoding(m) => CoreErrorView::Encoding(m@),
            CoreError::SelfCheck(m) => CoreErrorView::SelfCheck(m@),
            CoreError::NotImplemented(m) => CoreErrorView::NotImplemented(m@),
        }
    }
}

/// The view of an outcome: its value's view, or its error's.
pub open spec fn outcome_view<T: View>(r: Result<T, CoreError>) -> Result<T::V, CoreErrorView> {
    match r {
        Ok(v) => Ok(v@),
        Err(e) => Err(e@),
    }
}

}

verus! {

/// The message an error shows.
pub open spec fn core_message(e: CoreErrorView) -> Seq<char> {
    match e {
        CoreErrorView::Io(m) => "I/O error: "@ + m,
        CoreErrorView::UnsupportedFormat(m) => "unsupported format: "@ + m,
        CoreErrorView::Parse(m) => "parse error: "@ + m,
        CoreErrorView::Encoding(m) => "encoding error: "@ + m,
        CoreErrorView::SelfCheck(m) => "structural self-check failed: "@ + m,
        CoreErrorView::NotImplemented(m) => m + " is not yet implemented"@,
    }
}

impl CoreError {
    /// The message of the error, as the command line shows it.
    pub fn message(&self) -> (s: String)
        ensures
            s@ == core_message(self@),
    {
        core_error_message(self)
    }
}

/// The message of an error, as the command line shows it.
pub fn core_error_message(e: &CoreError) -> (s: String)
    ensures
        s@ == core_message(e@),
{
    match e {
        CoreError::Io(m) => crate::text::prefixed("I/O error: ", m.as_str()),
        CoreError::UnsupportedFormat(m) => crate::text::prefixed("unsupported format: ", m.as_str()),
        CoreError::Parse(m) => crate::text::prefixed("parse error: ", m.as_str()),
        CoreError::Encoding(m) => crate::text::prefixed("encoding error: ", m.as_str()),
        CoreError::SelfCheck(m) => crate::text::prefixed("structural self-check failed: ", m.as_str()),
        CoreError::NotImplemented(m) => crate::text::prefixed(m.as_str(), " is not yet implemented"),
    }
}

}
