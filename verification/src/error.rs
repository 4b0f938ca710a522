//! Errors of composition and dispatch.

use vstd::prelude::*;

verus! {

/// Errors that can occur during composition or function dispatch.
#[derive(Debug)]
pub enum CompositionError {
    /// No composable descriptors were added to the composer.
    Empty,
    /// Two descriptors share the same ID.
    DuplicateId(String),
    /// A hint references a composable ID that doesn't exist.
    InvalidLinkReference { interface: String, target_id: String },
    /// Multiple composables export the same interface and no import hint was provided.
    AmbiguousImport { interface: String, candidates: Vec<String> },
    /// Multiple composables export the same interface and no export hint was provided.
    AmbiguousExport { interface: String, candidates: Vec<String> },
    /// An import hint points to a composable that doesn't export the interface.
    ImportHintInvalid { interface: String, target_id: String },
    /// An export hint points to a composable that doesn't export the interface.
    ExportHintInvalid { interface: String, target_id: String },
    /// The requested function was not found in the composition's exports.
    FuncNotFound,
    /// The link type for an export is not supported (e.g. CoreFunc, Module).
    UnsupportedLinkType { interface: String },
    /// A generic linking error with a descriptive message.
    LinkingError(String),
    /// The composable's inbox channel has been closed (component dropped or panicked).
    Unavailable,
    /// A wasmtime runtime error (instantiation, execution, traps, etc.).
    Runtime(wasmtime::Error),
}

/// The mathematical view of a [`CompositionError`].
pub enum ErrorView {
    Empty,
    DuplicateId(Seq<char>),
    InvalidLinkReference { interface: Seq<char>, target_id: Seq<char> },
    AmbiguousImport { interface: Seq<char>, candidates: Seq<Seq<char>> },
    AmbiguousExport { interface: Seq<char>, candidates: Seq<Seq<char>> },
    ImportHintInvalid { interface: Seq<char>, target_id: Seq<char> },
    ExportHintInvalid { interface: Seq<char>, target_id: Seq<char> },
    FuncNotFound,
    UnsupportedLinkType { interface: Seq<char> },
    LinkingError(Seq<char>),
    Unavailable,
    Runtime(wasmtime::Error),
}

/// The character sequences of a list of strings.
pub open spec fn texts(strings: Seq<String>) -> Seq<Seq<char>> {
    strings.map_values(|s: String| s@)
}

impl View for CompositionError {
    type V = ErrorView;

    open spec fn view(&self) -> ErrorView {
        match *self {
            CompositionError::Empty => ErrorView::Empty,
            CompositionError::DuplicateId(id) => ErrorView::DuplicateId(id@),
            CompositionError::InvalidLinkReference { interface, target_id } =>
                ErrorView::InvalidLinkReference { interface: interface@, target_id: target_id@ },
            CompositionError::AmbiguousImport { interface, candidates } =>
                ErrorView::AmbiguousImport {
                interface: interface@,
                candidates: texts(candidates@),
            },
            CompositionError::AmbiguousExport { interface, candidates } =>
                ErrorView::AmbiguousExport {
                interface: interface@,
                candidates: texts(candidates@),
            },
            CompositionError::ImportHintInvalid { interface, target_id } =>
                ErrorView::ImportHintInvalid { interface: interface@, target_id: target_id@ },
            CompositionError::ExportHintInvalid { interface, target_id } =>
                ErrorView::ExportHintInvalid { interface: interface@, target_id: target_id@ },
            CompositionError::FuncNotFound => ErrorView::FuncNotFound,
            CompositionError::UnsupportedLinkType { interface } => ErrorView::UnsupportedLinkType {
                interface: interface@,
            },
            CompositionError::LinkingError(message) => ErrorView::LinkingError(message@),
            CompositionError::Unavailable => ErrorView::Unavailable,
            CompositionError::Runtime(e) => ErrorView::Runtime(e),
        }
    }
}

/// The view of a result without value.
pub open spec fn outcome_view(outcome: Result<(), CompositionError>) -> Result<(), ErrorView> {
    match outcome {
        Ok(()) => Ok(()),
        Err(e) => Err(e@),
    }
}

/// Why a visitor could not remap a resource handle.
#[derive(Debug)]
pub enum VisitError {
    /// The proxy table has no free slot for another handle.
    TableFull,
    /// The store refused the handle.
    Runtime(wasmtime::Error),
}

/// The message `before`, `name`, `after`, one after the other.
pub(crate) fn message(before: &str, name: &str, after: &str) -> (text: String)
    ensures
        text@ == before@ + name@ + after@,
{
    let mut text = before.to_owned();
    text.append(name);
    text.append(after);
    text
}

} // verus!
