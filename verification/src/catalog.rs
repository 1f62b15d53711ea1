//! What the application declares to the compiler: shared types and the
//! signatures of the capabilities it will bind.
use vstd::prelude::*;

use crate::semantic::SignatureSymbol;

verus! {

/// `Module::Name` of a type that the application shares with scripts.
#[derive(Debug, PartialEq, Eq, Hash)]
pub struct TypeSymbol {
    pub module: String,
    pub name: String,
}

pub enum CatalogTypeRef {
    Int,
    Float,
    Bool,
    String,
    Dynamic,
    Int8,
    Int16,
    Int32,
    Int64,
    Int128,
    Uint8,
    Uint16,
    Uint32,
    Uint64,
    Uint128,
    Float32,
    Float64,
    Shared(TypeSymbol),
}

pub enum CatalogType {
    Struct { fields: Vec<CatalogField> },
    Enum { variants: Vec<CatalogVariant> },
}

pub struct CatalogField {
    pub name: String,
    pub type_ref: CatalogTypeRef,
}

pub enum CatalogVariant {
    Simple { name: String },
    Associated { name: String, type_ref: CatalogTypeRef },
    Structured { name: String, fields: Vec<CatalogField> },
}

pub enum CatalogSignatureParameter {
    Value(CatalogTypeRef),
    SignatureDependency(SignatureSymbol),
}

pub struct CatalogSignature {
    pub parameters: Vec<CatalogSignatureParameter>,
    pub result_type: CatalogTypeRef,
}

/// The catalog: shared types and signatures, each keyed by its symbol. Types
/// and signatures are separate namespaces, and within each no symbol occurs
/// twice.
pub struct CompilationCatalog {
    types: Vec<(TypeSymbol, CatalogType)>,
    signatures: Vec<(SignatureSymbol, CatalogSignature)>,
}

/// A symbol as the pair of its module and name.

impl TypeSymbol {
    pub open spec fn key(&self) -> (Seq<char>, Seq<char>) {
        (self.module@, self.name@)
    }
}

impl SignatureSymbol {
    pub open spec fn key(&self) -> (Seq<char>, Seq<char>) {
        (self.module@, self.name@)
    }
}

spec fn type_keys_of(v: Seq<(TypeSymbol, CatalogType)>) -> Seq<(Seq<char>, Seq<char>)> {
    v.map_values(|e: (TypeSymbol, CatalogType)| e.0.key())
}

spec fn signature_keys_of(v: Seq<(SignatureSymbol, CatalogSignature)>) -> Seq<
    (Seq<char>, Seq<char>),
> {
    v.map_values(|e: (SignatureSymbol, CatalogSignature)| e.0.key())
}

impl CompilationCatalog {
    /// Keys of the shared types, in insertion order.
    pub closed spec fn type_keys(&self) -> Seq<(Seq<char>, Seq<char>)> {
        type_keys_of(self.types@)
    }

    /// Keys of the signatures, in insertion order.
    pub closed spec fn signature_keys(&self) -> Seq<(Seq<char>, Seq<char>)> {
        signature_keys_of(self.signatures@)
    }

    /// Entry `i` of the shared types.
    pub closed spec fn type_at(&self, i: int) -> &CatalogType {
        &self.types@[i].1
    }

    /// Entry `i` of the signatures.
    pub closed spec fn signature_at(&self, i: int) -> &CatalogSignature {
        &self.signatures@[i].1
    }

    pub open spec fn has_type(&self, key: (Seq<char>, Seq<char>)) -> bool {
        self.type_keys().contains(key)
    }

    pub open spec fn has_signature(&self, key: (Seq<char>, Seq<char>)) -> bool {
        self.signature_keys().contains(key)
    }

    #[verifier::type_invariant]
    closed spec fn keys_unique(&self) -> bool {
        &&& self.type_keys().no_duplicates()
        &&& self.signature_keys().no_duplicates()
    }

    /// An empty catalog.
    pub fn new() -> (r: CompilationCatalog)
        ensures
            r.type_keys().len() == 0,
            r.signature_keys().len() == 0,
    {
        let r = CompilationCatalog { types: Vec::new(), signatures: Vec::new() };
        assert(r.type_keys() =~= Seq::empty());
        assert(r.signature_keys() =~= Seq::empty());
        r
    }

    /// Number of shared types.
    pub fn type_count(&self) -> (n: usize)
        ensures
            n == self.type_keys().len(),
    {
        self.types.len()
    }

    /// Number of signatures.
    pub fn signature_count(&self) -> (n: usize)
        ensures
            n == self.signature_keys().len(),
    {
        self.signatures.len()
    }

    /// Position of the shared type `module::name`, if the catalog has it.
    pub fn find_type(&self, module: &str, name: &str) -> (r: Option<usize>)
        ensures
            match r {
                Some(i) => i < self.type_keys().len() && self.type_keys()[i as int] == (
                module@,
                name@,
                ),
                None => !self.has_type((module@, name@)),
            },
    {
        let mut i: usize = 0;
        while i < self.types.len()
            invariant
                i <= self.types@.len(),
                forall|j: int| 0 <= j < i ==> self.type_keys()[j] != (module@, name@),
            decreases self.types@.len() - i,
        {
            if crate::text::same_text(&self.types[i].0.module, module) && crate::text::same_text(
                &self.types[i].0.name,
                name,
            ) {
                return Some(i);
            }
            i = i + 1;
        }
        None
    }

    /// Position of the signature `module::name`, if the catalog has it: the
    /// only position under that key.
    pub fn find_signature(&self, module: &str, name: &str) -> (r: Option<usize>)
        ensures
            match r {
                Some(i) => i < self.signature_keys().len() && self.signature_keys()[i as int] == (
                module@,
                name@,
                ) && forall|j: int|
                    0 <= j < self.signature_keys().len() && j != i ==> #[trigger] self.signature_keys()[j] != (
                    module@,
                    name@,
                    ),
                None => !self.has_signature((module@, name@)),
            },
    {
        proof {
            use_type_invariant(self);
        }
        let mut i: usize = 0;
        while i < self.signatures.len()
            invariant
                i <= self.signatures@.len(),
                forall|j: int| 0 <= j < i ==> self.signature_keys()[j] != (module@, name@),
                self.signature_keys().no_duplicates(),
            decreases self.signatures@.len() - i,
        {
            if crate::text::same_text(&self.signatures[i].0.module, module)
                && crate::text::same_text(&self.signatures[i].0.name, name) {
                assert(self.signature_keys()[i as int] == (module@, name@));
                return Some(i);
            }
            i = i + 1;
        }
        None
    }

    /// The symbol of the shared type at position `i`.
    pub fn type_symbol(&self, i: usize) -> (r: &TypeSymbol)
        requires
            i < self.type_keys().len(),
        ensures
            r.key() == self.type_keys()[i as int],
    {
        &self.types[i].0
    }

    /// The symbol of the signature at position `i`.
    pub fn signature_symbol(&self, i: usize) -> (r: &SignatureSymbol)
        requires
            i < self.signature_keys().len(),
        ensures
            r.key() == self.signature_keys()[i as int],
    {
        &self.signatures[i].0
    }

    /// The shared type at position `i`.
    pub fn type_entry(&self, i: usize) -> (r: &CatalogType)
        requires
            i < self.type_keys().len(),
        ensures
            r == self.type_at(i as int),
    {
        &self.types[i].1
    }

    /// The signature at position `i`.
    pub fn signature_entry(&self, i: usize) -> (r: &CatalogSignature)
        requires
            i < self.signature_keys().len(),
        ensures
            r == self.signature_at(i as int),
    {
        &self.signatures[i].1
    }

    /// Registers `ty` under `symbol`, replacing what was registered under the
    /// same symbol before; the symbol keeps its position.
    pub fn insert_type(&mut self, symbol: TypeSymbol, ty: CatalogType)
        ensures
            final(self).signature_keys() == old(self).signature_keys(),
            old(self).has_type(symbol.key()) ==> final(self).type_keys() == old(self).type_keys(),
            !old(self).has_type(symbol.key()) ==> final(self).type_keys() == old(
                self,
            ).type_keys().push(symbol.key()),
            final(self).has_type(symbol.key()),
            forall|i: int|
                0 <= i < final(self).type_keys().len() && #[trigger] final(self).type_keys()[i] == symbol.key()
                    ==> *final(self).type_at(i) == ty,
            forall|i: int|
                0 <= i < old(self).type_keys().len() && old(self).type_keys()[i] != symbol.key()
                    ==> #[trigger] final(self).type_at(i) == old(self).type_at(i),
    {
        proof {
            use_type_invariant(&*self);
        }
        let found = self.find_type(symbol.module.as_str(), symbol.name.as_str());
        match found {
            Some(i) => {
                let ghost old_keys = self.type_keys();
                let mut types = Vec::new();
                std::mem::swap(&mut types, &mut self.types);
                types.set(i, (symbol, ty));
                assert(type_keys_of(types@) =~= old_keys);
                self.types = types;
                assert(self.type_keys() =~= old_keys);
            },
            None => {
                let ghost k = symbol.key();
                let ghost old_keys = self.type_keys();
                let mut types = Vec::new();
                std::mem::swap(&mut types, &mut self.types);
                types.push((symbol, ty));
                assert(type_keys_of(types@) =~= old_keys.push(k));
                self.types = types;
                assert(self.type_keys() =~= old_keys.push(k));
                assert(self.type_keys()[old_keys.len() as int] == k);
            },
        }
    }

    /// Registers `signature` under `symbol`, replacing what was registered under
    /// the same symbol before; the symbol keeps its position.
    pub fn insert_signature(&mut self, symbol: SignatureSymbol, signature: CatalogSignature)
        ensures
            final(self).type_keys() == old(self).type_keys(),
            old(self).has_signature(symbol.key()) ==> final(self).signature_keys() == old(
                self,
            ).signature_keys(),
            !old(self).has_signature(symbol.key()) ==> final(self).signature_keys() == old(
                self,
            ).signature_keys().push(symbol.key()),
            final(self).has_signature(symbol.key()),
            forall|i: int|
                0 <= i < final(self).signature_keys().len() && #[trigger] final(self).signature_keys()[i] == symbol.key()
                    ==> *final(self).signature_at(i) == signature,
            forall|i: int|
                0 <= i < old(self).signature_keys().len() && old(self).signature_keys()[i] != symbol.key()
                    ==> #[trigger] final(self).signature_at(i) == old(self).signature_at(i),
    {
        proof {
            use_type_invariant(&*self);
        }
        let found = self.find_signature(symbol.module.as_str(), symbol.name.as_str());
        match found {
            Some(i) => {
                let ghost old_keys = self.signature_keys();
                let mut sigs = Vec::new();
                std::mem::swap(&mut sigs, &mut self.signatures);
                sigs.set(i, (symbol, signature));
                assert(signature_keys_of(sigs@) =~= old_keys);
                self.signatures = sigs;
                assert(self.signature_keys() =~= old_keys);
            },
            None => {
                let ghost k = symbol.key();
                let ghost old_keys = self.signature_keys();
                let mut sigs = Vec::new();
                std::mem::swap(&mut sigs, &mut self.signatures);
                sigs.push((symbol, signature));
                assert(signature_keys_of(sigs@) =~= old_keys.push(k));
                self.signatures = sigs;
                assert(self.signature_keys() =~= old_keys.push(k));
                assert(self.signature_keys()[old_keys.len() as int] == k);
            },
        }
    }
}

} // verus!
