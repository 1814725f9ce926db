//! Facts about nodes that a type provider knows and the parser does not
//!
//! A few rules need more than syntax: the resolved type of an expression,
//! whether an enum is `#[non_exhaustive]` in another crate, the error type
//! of a function, or what a `use` qualifier names. A provider attaches
//! these facts to node indices of a [`SyntaxTree`](crate::syntax::SyntaxTree);
//! a node without a fact reads as [`None`]. Attaching a fact of one sort to
//! a node again replaces the earlier one.
use vstd::prelude::*;

verus! {

/// What the qualifier of a `use` declaration resolves to
#[derive(Clone, Copy, Debug, PartialEq, Eq, Structural)]
pub enum ImportSource {
    /// An enum, so the import names its variants
    Enum,
    /// A module
    Module,
    /// Any other item
    Other,
    /// The provider could not resolve it
    Unresolved,
}

/// The type a provider resolved for an expression
#[derive(Clone, Debug)]
pub struct ResolvedType {
    /// The type as the provider renders it
    pub name: String,
    /// Whether the type is an enum
    pub is_enum: bool,
    /// Whether the type is `Result`
    pub is_result: bool,
    /// Whether the type is `Option`
    pub is_option: bool,
}

impl ResolvedType {
    /// Creates a resolved type named `name` that is neither an enum, nor a
    /// `Result`, nor an `Option`
    pub fn new(name: String) -> (r: Self)
        ensures
            r.name@ == name@,
            !r.is_enum,
            !r.is_result,
            !r.is_option,
    {
        ResolvedType { name, is_enum: false, is_result: false, is_option: false }
    }

    /// Returns the type with its enum flag set to `yes`
    pub fn with_enum(self, yes: bool) -> (r: Self)
        ensures
            r.name@ == self.name@,
            r.is_enum == yes,
            r.is_result == self.is_result,
            r.is_option == self.is_option,
    {
        ResolvedType { is_enum: yes, ..self }
    }

    /// Returns the type with its `Result` flag set to `yes`
    pub fn with_result(self, yes: bool) -> (r: Self)
        ensures
            r.name@ == self.name@,
            r.is_enum == self.is_enum,
            r.is_result == yes,
            r.is_option == self.is_option,
    {
        ResolvedType { is_result: yes, ..self }
    }

    /// Returns the type with its `Option` flag set to `yes`
    pub fn with_option(self, yes: bool) -> (r: Self)
        ensures
            r.name@ == self.name@,
            r.is_enum == self.is_enum,
            r.is_result == self.is_result,
            r.is_option == yes,
    {
        ResolvedType { is_option: yes, ..self }
    }
}

/// Where a type is defined: its crate, the modules inside that crate, and
/// its own name
#[derive(Clone, Debug)]
pub struct TypePath {
    pub krate: String,
    pub modules: Vec<String>,
    pub name: String,
}

/// The definition path of a type, as plain values
pub open spec fn path_view(p: TypePath) -> (Seq<char>, Seq<Seq<char>>, Seq<char>) {
    (p.krate@, p.modules@.map_values(|m: String| m@), p.name@)
}

/// What a provider knows of a function's signature: the definition path of
/// the error type its `Result` carries, when that type is a named type
#[derive(Clone, Debug)]
pub struct FnSignature {
    pub error: Option<TypePath>,
}

/// The value last attached to `node` among `entries`
pub open spec fn last_for<T>(entries: Seq<(usize, T)>, node: usize) -> Option<T>
    decreases entries.len(),
{
    if entries.len() == 0 {
        None
    } else if entries.last().0 == node {
        Some(entries.last().1)
    } else {
        last_for(entries.drop_last(), node)
    }
}

/// The facts attached to the nodes of one tree
pub struct Decorations {
    resolved: Vec<(usize, ResolvedType)>,
    adt_flags: Vec<(usize, bool)>,
    signatures: Vec<(usize, FnSignature)>,
    imports: Vec<(usize, ImportSource)>,
}

impl Decorations {
    /// The resolved type attached to `node`
    pub closed spec fn resolved_of(&self, node: usize) -> Option<ResolvedType> {
        last_for(self.resolved@, node)
    }

    /// Whether the enum type of `node` is `#[non_exhaustive]` and defined
    /// in another crate, when a provider said so either way
    pub closed spec fn external_of(&self, node: usize) -> Option<bool> {
        last_for(self.adt_flags@, node)
    }

    /// The signature attached to the function `node`
    pub closed spec fn signature_of(&self, node: usize) -> Option<FnSignature> {
        last_for(self.signatures@, node)
    }

    /// What the `use` declaration `node` imports from
    pub closed spec fn import_of(&self, node: usize) -> Option<ImportSource> {
        last_for(self.imports@, node)
    }

    /// Creates a set of facts that attaches nothing to any node
    pub fn new() -> (r: Self)
        ensures
            forall|n: usize| #[trigger] r.resolved_of(n) is None,
            forall|n: usize| #[trigger] r.external_of(n) is None,
            forall|n: usize| #[trigger] r.signature_of(n) is None,
            forall|n: usize| #[trigger] r.import_of(n) is None,
    {
        Decorations {
            resolved: Vec::new(),
            adt_flags: Vec::new(),
            signatures: Vec::new(),
            imports: Vec::new(),
        }
    }

    /// Attaches the resolved type `value` to `node`
    pub fn insert_resolved_type(&mut self, node: usize, value: ResolvedType)
        ensures
            final(self).resolved_of(node) == Some(value),
            forall|n: usize| n != node ==> #[trigger] final(self).resolved_of(n) == old(self).resolved_of(n),
            forall|n: usize| #[trigger] final(self).external_of(n) == old(self).external_of(n),
            forall|n: usize| #[trigger] final(self).signature_of(n) == old(self).signature_of(n),
            forall|n: usize| #[trigger] final(self).import_of(n) == old(self).import_of(n),
    {
        let ghost before = self.resolved@;
        self.resolved.push((node, value));
        assert(self.resolved@.drop_last() =~= before);
    }

    /// Attaches to `node` whether its enum type is `#[non_exhaustive]` in
    /// another crate
    pub fn insert_adt_flags(&mut self, node: usize, non_exhaustive_external: bool)
        ensures
            final(self).external_of(node) == Some(non_exhaustive_external),
            forall|n: usize| n != node ==> #[trigger] final(self).external_of(n) == old(self).external_of(n),
            forall|n: usize| #[trigger] final(self).resolved_of(n) == old(self).resolved_of(n),
            forall|n: usize| #[trigger] final(self).signature_of(n) == old(self).signature_of(n),
            forall|n: usize| #[trigger] final(self).import_of(n) == old(self).import_of(n),
    {
        let ghost before = self.adt_flags@;
        self.adt_flags.push((node, non_exhaustive_external));
        assert(self.adt_flags@.drop_last() =~= before);
    }

    /// Attaches the signature `value` to the function `node`
    pub fn insert_fn_signature(&mut self, node: usize, value: FnSignature)
        ensures
            final(self).signature_of(node) == Some(value),
            forall|n: usize| n != node ==> #[trigger] final(self).signature_of(n) == old(self).signature_of(n),
            forall|n: usize| #[trigger] final(self).resolved_of(n) == old(self).resolved_of(n),
            forall|n: usize| #[trigger] final(self).external_of(n) == old(self).external_of(n),
            forall|n: usize| #[trigger] final(self).import_of(n) == old(self).import_of(n),
    {
        let ghost before = self.signatures@;
        self.signatures.push((node, value));
        assert(self.signatures@.drop_last() =~= before);
    }

    /// Attaches what the `use` declaration `node` imports from
    pub fn insert_import_source(&mut self, node: usize, value: ImportSource)
        ensures
            final(self).import_of(node) == Some(value),
            forall|n: usize| n != node ==> #[trigger] final(self).import_of(n) == old(self).import_of(n),
            forall|n: usize| #[trigger] final(self).resolved_of(n) == old(self).resolved_of(n),
            forall|n: usize| #[trigger] final(self).external_of(n) == old(self).external_of(n),
            forall|n: usize| #[trigger] final(self).signature_of(n) == old(self).signature_of(n),
    {
        let ghost before = self.imports@;
        self.imports.push((node, value));
        assert(self.imports@.drop_last() =~= before);
    }

    /// Returns the resolved type attached to `node`
    pub fn resolved_type(&self, node: usize) -> (r: Option<&ResolvedType>)
        ensures
            match r {
                Some(v) => self.resolved_of(node) == Some(*v),
                None => self.resolved_of(node) is None,
            },
    {
        let mut k = self.resolved.len();
        assert(self.resolved@.subrange(0, k as int) =~= self.resolved@);
        while k > 0
            invariant
                k <= self.resolved@.len(),
                last_for(self.resolved@, node) == last_for(self.resolved@.subrange(0, k as int), node),
            decreases k,
        {
            let ghost s = self.resolved@.subrange(0, k as int);
            assert(s.drop_last() =~= self.resolved@.subrange(0, k - 1));
            if self.resolved[k - 1].0 == node {
                return Some(&self.resolved[k - 1].1);
            }
            k -= 1;
        }
        None
    }

    /// Returns whether the enum type of `node` is `#[non_exhaustive]` in
    /// another crate, when a provider said so either way
    pub fn non_exhaustive_external(&self, node: usize) -> (r: Option<bool>)
        ensures
            r == self.external_of(node),
    {
        let mut k = self.adt_flags.len();
        assert(self.adt_flags@.subrange(0, k as int) =~= self.adt_flags@);
        while k > 0
            invariant
                k <= self.adt_flags@.len(),
                last_for(self.adt_flags@, node) == last_for(self.adt_flags@.subrange(0, k as int), node),
            decreases k,
        {
            let ghost s = self.adt_flags@.subrange(0, k as int);
            assert(s.drop_last() =~= self.adt_flags@.subrange(0, k - 1));
            if self.adt_flags[k - 1].0 == node {
                return Some(self.adt_flags[k - 1].1);
            }
            k -= 1;
        }
        None
    }

    /// Returns the signature attached to the function `node`
    pub fn fn_signature(&self, node: usize) -> (r: Option<&FnSignature>)
        ensures
            match r {
                Some(v) => self.signature_of(node) == Some(*v),
                None => self.signature_of(node) is None,
            },
    {
        let mut k = self.signatures.len();
        assert(self.signatures@.subrange(0, k as int) =~= self.signatures@);
        while k > 0
            invariant
                k <= self.signatures@.len(),
                last_for(self.signatures@, node) == last_for(self.signatures@.subrange(0, k as int), node),
            decreases k,
        {
            let ghost s = self.signatures@.subrange(0, k as int);
            assert(s.drop_last() =~= self.signatures@.subrange(0, k - 1));
            if self.signatures[k - 1].0 == node {
                return Some(&self.signatures[k - 1].1);
            }
            k -= 1;
        }
        None
    }

    /// Returns what the `use` declaration `node` imports from
    pub fn import_source(&self, node: usize) -> (r: Option<ImportSource>)
        ensures
            r == self.import_of(node),
    {
        let mut k = self.imports.len();
        assert(self.imports@.subrange(0, k as int) =~= self.imports@);
        while k > 0
            invariant
                k <= self.imports@.len(),
                last_for(self.imports@, node) == last_for(self.imports@.subrange(0, k as int), node),
            decreases k,
        {
            let ghost s = self.imports@.subrange(0, k as int);
            assert(s.drop_last() =~= self.imports@.subrange(0, k - 1));
            if self.imports[k - 1].0 == node {
                return Some(self.imports[k - 1].1);
            }
            k -= 1;
        }
        None
    }
}

} // verus!
