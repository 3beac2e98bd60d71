//! The part of a syntax tree that matters to a call graph.
//!
//! A tree keeps the function items, the implementation blocks and the two
//! kinds of call expression of a source file. Each node lists under `inner`,
//! in source order, the nodes of these four kinds that stand inside it with
//! none of them in between; every other construct is left out, and what it
//! encloses moves up in its place.

use vstd::prelude::*;

verus! {

/// A node of the syntax tree.
#[derive(Debug)]
pub enum Syntax {
    /// A function item, free or in an implementation block.
    Function {
        /// The name as declared, without a qualifier.
        name: String,
        inner: Vec<Syntax>,
    },
    /// An implementation block.
    Impl {
        /// The type that the block implements, as written.
        self_ty: String,
        inner: Vec<Syntax>,
    },
    /// A call `func(..)`.
    Call {
        /// The callee as a token text: its tokens, set apart by white space.
        func: String,
        /// Where the callee is a path, the identifier of its final segment,
        /// without generic arguments.
        segment: Option<String>,
        inner: Vec<Syntax>,
    },
    /// A method call `receiver.method(..)`.
    MethodCall {
        /// The receiver as a token text.
        receiver: String,
        /// The name of the method.
        method: String,
        inner: Vec<Syntax>,
    },
}

/// A parsed source file.
#[derive(Debug)]
pub struct SourceFile {
    /// The name of the file, without its directory.
    pub name: String,
    /// The outermost nodes of the file, in source order.
    pub items: Vec<Syntax>,
}

} // verus!
