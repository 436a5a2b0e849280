//! Scope resolution for option access: which accessor a read or a write
//! must go through, given the option's scope and whether the mutation is
//! applied in a buffer-local context. A buffer-local application of a
//! global option goes through the local override of the global, never the
//! true global accessor.

use vstd::prelude::*;

verus! {

/// The scope the host reports for an option.
#[derive(Debug, Clone, PartialEq)]
pub enum OptionScope {
    Global,
    Window,
    Buffer,
    /// A scope this crate does not support, under its host name.
    Other(String),
}

/// The mathematical shape of an `OptionScope`.
pub enum ScopeView {
    Global,
    Window,
    Buffer,
    Other(Seq<char>),
}

impl View for OptionScope {
    type V = ScopeView;

    open spec fn view(&self) -> ScopeView {
        match self {
            OptionScope::Global => ScopeView::Global,
            OptionScope::Window => ScopeView::Window,
            OptionScope::Buffer => ScopeView::Buffer,
            OptionScope::Other(name) => ScopeView::Other(name@),
        }
    }
}

/// The accessor a write must go through.
#[derive(Debug, Clone, Copy, PartialEq, Eq)]
pub enum WriteRoute {
    /// A buffer-scoped option written in a global context: write the
    /// global default and the current buffer's value.
    GlobalThenBuffer,
    /// The current buffer's value.
    Buffer,
    /// The local override of a global option, shielding the global
    /// default from a buffer-scoped fragment.
    LocalOverride,
    /// The true global value.
    Global,
    /// The current window's value.
    Window,
}

/// The accessor a read must go through.
#[derive(Debug, Clone, Copy, PartialEq, Eq)]
pub enum ReadRoute {
    Buffer,
    LocalOverride,
    Global,
    Window,
}

/// Where a write goes: buffer-scoped options reach the current buffer
/// (and, from a global context, also the global default); global options
/// reach the local override when applied buffer-locally, else the true
/// global; window options reach the current window. Unknown scopes fail.
pub open spec fn write_route_spec(scope: ScopeView, buffer: bool) -> Result<WriteRoute, Seq<char>> {
    match scope {
        ScopeView::Buffer => if !buffer {
            Ok(WriteRoute::GlobalThenBuffer)
        } else {
            Ok(WriteRoute::Buffer)
        },
        ScopeView::Global => if buffer {
            Ok(WriteRoute::LocalOverride)
        } else {
            Ok(WriteRoute::Global)
        },
        ScopeView::Window => Ok(WriteRoute::Window),
        ScopeView::Other(name) => Err(name),
    }
}

/// Where a read goes: the same resolution as `write_route_spec`, except
/// that a buffer-scoped option is always read from the current buffer.
pub open spec fn read_route_spec(scope: ScopeView, buffer: bool) -> Result<ReadRoute, Seq<char>> {
    match scope {
        ScopeView::Buffer => Ok(ReadRoute::Buffer),
        ScopeView::Global => if buffer {
            Ok(ReadRoute::LocalOverride)
        } else {
            Ok(ReadRoute::Global)
        },
        ScopeView::Window => Ok(ReadRoute::Window),
        ScopeView::Other(name) => Err(name),
    }
}

/// Resolves the accessor for writing an option, as `write_route_spec`
/// says; the error carries the unsupported scope's name.
pub fn write_route(scope: &OptionScope, buffer: bool) -> (r: Result<WriteRoute, String>)
    ensures
        match r {
            Ok(route) => write_route_spec(scope@, buffer) == Ok::<WriteRoute, Seq<char>>(route),
            Err(name) => write_route_spec(scope@, buffer) == Err::<WriteRoute, Seq<char>>(name@),
        },
{
    match scope {
        OptionScope::Buffer => if !buffer {
            Ok(WriteRoute::GlobalThenBuffer)
        } else {
            Ok(WriteRoute::Buffer)
        },
        OptionScope::Global => if buffer {
            Ok(WriteRoute::LocalOverride)
        } else {
            Ok(WriteRoute::Global)
        },
        OptionScope::Window => Ok(WriteRoute::Window),
        OptionScope::Other(name) => Err(name.clone()),
    }
}

/// Resolves the accessor for reading an option, as `read_route_spec`
/// says; the error carries the unsupported scope's name.
pub fn read_route(scope: &OptionScope, buffer: bool) -> (r: Result<ReadRoute, String>)
    ensures
        match r {
            Ok(route) => read_route_spec(scope@, buffer) == Ok::<ReadRoute, Seq<char>>(route),
            Err(name) => read_route_spec(scope@, buffer) == Err::<ReadRoute, Seq<char>>(name@),
        },
{
    match scope {
        OptionScope::Buffer => Ok(ReadRoute::Buffer),
        OptionScope::Global => if buffer {
            Ok(ReadRoute::LocalOverride)
        } else {
            Ok(ReadRoute::Global)
        },
        OptionScope::Window => Ok(ReadRoute::Window),
        OptionScope::Other(name) => Err(name.clone()),
    }
}

} // verus!
