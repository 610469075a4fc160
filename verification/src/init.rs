//! The initialization policy: whether a slot that is handed out needs an
//! object constructed in it, and whether a slot that comes back keeps one.

use vstd::prelude::*;

verus! {

/// How objects come to be initialized.
#[derive(Clone, Copy, Debug, PartialEq, Eq, Structural)]
pub enum InitKind {
    /// Each new object is the default value of its type.
    Default,
    /// Each new object is made by a function that returns it.
    Func,
    /// Each new object is made in place by a function that gets its address.
    UnsafeFunc,
    /// Objects are handed out as raw memory.
    Nop,
}

/// An initialization policy for objects of one type.
#[derive(Clone, Copy, Debug)]
pub struct InitSystem {
    kind: InitKind,
    type_align: usize,
}

impl InitSystem {
    pub closed spec fn spec_kind(&self) -> InitKind {
        self.kind
    }

    /// The alignment of the object type.
    pub closed spec fn spec_type_align(&self) -> usize {
        self.type_align
    }

    /// The least alignment the policy demands of a slot: that of the object
    /// type where objects are constructed, none where they are not.
    pub open spec fn spec_min_align(&self) -> usize {
        if self.spec_kind() == InitKind::Nop {
            1
        } else {
            self.spec_type_align()
        }
    }

    /// Whether a freed slot keeps its object for the next owner.
    pub open spec fn spec_status_initialized(&self) -> bool {
        self.spec_kind() != InitKind::Nop
    }

    /// Whether a slot that is handed out needs an object constructed in it.
    pub open spec fn spec_must_construct(&self, cached: bool) -> bool {
        self.spec_kind() != InitKind::Nop && !cached
    }

    /// The policy of kind `kind` for a type aligned to `type_align`.
    pub fn new(kind: InitKind, type_align: usize) -> (init: InitSystem)
        ensures
            init.spec_kind() == kind,
            init.spec_type_align() == type_align,
    {
        InitSystem { kind, type_align }
    }

    #[verifier::when_used_as_spec(spec_kind)]
    pub fn kind(&self) -> (k: InitKind)
        ensures
            k == self.spec_kind(),
    {
        self.kind
    }

    #[verifier::when_used_as_spec(spec_min_align)]
    pub fn min_align(&self) -> (a: usize)
        ensures
            a == self.spec_min_align(),
    {
        match self.kind {
            InitKind::Nop => 1,
            _ => self.type_align,
        }
    }

    #[verifier::when_used_as_spec(spec_status_initialized)]
    pub fn status_initialized(&self) -> (s: bool)
        ensures
            s == self.spec_status_initialized(),
    {
        match self.kind {
            InitKind::Nop => false,
            _ => true,
        }
    }

    #[verifier::when_used_as_spec(spec_must_construct)]
    pub fn must_construct(&self, cached: bool) -> (c: bool)
        ensures
            c == self.spec_must_construct(cached),
    {
        match self.kind {
            InitKind::Nop => false,
            _ => !cached,
        }
    }
}

} // verus!
