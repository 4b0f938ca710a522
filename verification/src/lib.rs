//! Runtime composition of WebAssembly components.
//!
//! This crate plans how multiple wasmtime WebAssembly components are composed at
//! runtime: it resolves their imports and exports, plans how they are wired
//! together, and proxies resources across component boundaries. What it does is
//! stated in contracts and proved with Verus.
//!
//! # Core workflow
//!
//! 1. Create composable units ([`ComposableComponent`] or [`ComposableInstance`])
//! 2. Add them to a [`Composer`] via [`ComposableDescriptor`]
//! 3. Call [`Composer::compose()`]: imports are resolved, and a [`Blueprint`] tells
//!    which links to make
//! 4. Make the links in the order that an [`Assembly`] gives:
//!    [`Linkable::link_export`] plans the definitions of each, and a
//!    [`ComposableLinker`] tells what to register for them
//! 5. Put the running components together in a [`Composition`], and find exported
//!    functions with [`Composition::get_func`]
//! 6. Dispatch the calls that reach a component as [`inbox`] schedules them, with
//!    their resources proxied by [`proxy`]

pub mod assembly;
pub mod compile;
pub mod composable;
pub mod composer;
pub mod composition;
pub mod describe;
pub mod descriptor;
pub mod error;
pub mod exporting;
pub mod filtered;
pub mod fitting;
pub mod hints;
pub mod inbox;
pub mod instance;
pub mod interface;
pub mod link;
pub mod linker;
pub mod linking;
pub mod mapper;
pub mod names;
pub mod navigator;
pub mod plans;
pub mod proxy;
pub mod proxy_table;
pub mod remapping;
pub mod resolution;
pub mod resolve;
pub mod table_link;
pub mod table_plans;
pub mod typing;
pub mod vals;
pub mod value;
pub mod value_type;
pub mod visitor;
pub mod wasm;

pub use assembly::{Action, Assembly};
pub use composable::{Composable, ComposableComponent, ComposableInstance, Linkable, Typed};
pub use composer::{Blueprint, Composer, CompositionBuilder, LinkStep};
pub use composition::Composition;
pub use descriptor::ComposableDescriptor;
pub use error::{CompositionError, VisitError};
pub use filtered::{ExportFilter, Filtered};
pub use hints::HintMap;
pub use instance::{ComposableInstanceCore, FuncTarget};
pub use interface::{ComposableType, InterfaceSet, ResolvedImport};
pub use link::{LinkOp, LinkPlan};
pub use linker::{ComposableLinker, Registration};
pub use mapper::{FuncSignature, LinkContext, ResourceMap, ValMapper};
pub use navigator::ValNavigator;
pub use proxy_table::ResourceProxyTable;
pub use value::Value;
pub use value_type::ValueType;
pub use visitor::ValVisitor;
