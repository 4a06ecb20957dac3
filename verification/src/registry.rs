//! The reflective type and function registry.
//!
//! Types and functions are interned in registration order and looked up with
//! partial-match queries: a query field that is `None` matches anything, a
//! specified field must match exactly. Lookups return the first registered
//! entry that matches.

use vstd::prelude::*;
use crate::abort::Abort;
use crate::kind::{AnkhaValueKind, TypeHash, Visibility};
use crate::literal::AnkhaLiteral;

verus! {

/// Nominal layout of a managed container field inside a struct, in bytes.
pub const MANAGED_FIELD_SIZE: usize = 16;
/// Alignment of a managed container field inside a struct.
pub const MANAGED_FIELD_ALIGN: usize = 8;

/// How a struct field is filled when the struct is default-initialized.
#[derive(Debug, Clone, PartialEq, Eq)]
pub enum FieldInit {
    /// No default: the field must be supplied at construction.
    Required,
    /// An owned container holding the literal.
    Owned(AnkhaLiteral),
    /// A box container holding the literal.
    Boxed(AnkhaLiteral),
    /// Raw (unmanaged) bytes.
    Raw(Vec<u8>),
}

/// One field of a struct type. `kind` is the managed-container role the field
/// holds; `Any` marks an unmanaged (raw) field, whose data type is
/// `type_hash`. For managed fields `type_hash` is the container type's hash.
/// `offset` is the byte offset from the struct's base, computed once at
/// registration.
#[derive(Debug, Clone, PartialEq, Eq)]
pub struct FieldDef {
    pub name: String,
    pub visibility: Visibility,
    pub kind: AnkhaValueKind,
    pub type_hash: TypeHash,
    pub offset: usize,
    pub init: FieldInit,
}

/// One variant of an enum type: a struct shape plus its discriminant byte.
#[derive(Debug, Clone, PartialEq, Eq)]
pub struct VariantDef {
    pub name: String,
    pub fields: Vec<FieldDef>,
    pub discriminant: u8,
}

/// The shape of a registered type.
#[derive(Debug, Clone, PartialEq, Eq)]
pub enum TypeShape {
    /// An opaque host type: raw bytes of a fixed size.
    Native,
    /// A struct with named fields.
    Struct(Vec<FieldDef>),
    /// An enum: a leading discriminant byte, then the active variant's
    /// payload. Enum shapes are carried as registration-level metadata; no
    /// stack operation builds or takes apart enum payloads — scripts work
    /// with them through host functions.
    Enum(Vec<VariantDef>),
}

/// A registered type.
#[derive(Debug, Clone, PartialEq, Eq)]
pub struct TypeDef {
    pub name: String,
    pub module_name: Option<String>,
    pub visibility: Visibility,
    pub type_hash: TypeHash,
    pub size: usize,
    pub align: usize,
    pub is_copy: bool,
    pub can_initialize: bool,
    pub shape: TypeShape,
}

/// A partial-match query over registered types.
#[derive(Debug, Clone, PartialEq, Eq, Default)]
pub struct AnkhaTypeQuery {
    pub name: Option<String>,
    pub module_name: Option<String>,
    pub type_hash: Option<TypeHash>,
    pub visibility: Option<Visibility>,
}

/// A partial-match query over the fields of a struct type.
#[derive(Debug, Clone, PartialEq, Eq)]
pub struct AnkhaFieldQuery {
    pub name: String,
    pub kind: AnkhaValueKind,
    pub type_hash: Option<TypeHash>,
    pub visibility: Option<Visibility>,
}

/// A partial-match query over one function parameter.
#[derive(Debug, Clone, PartialEq, Eq, Default)]
pub struct AnkhaFunctionQueryParam {
    pub name: Option<String>,
    pub kind: Option<AnkhaValueKind>,
}

/// A partial-match query over registered functions. Empty parameter lists
/// match any signature; non-empty ones must match position by position.
#[derive(Debug, Clone, PartialEq, Eq, Default)]
pub struct AnkhaFunctionQuery {
    pub name: Option<String>,
    pub module_name: Option<String>,
    pub owner: Option<TypeHash>,
    pub visibility: Option<Visibility>,
    pub inputs: Vec<AnkhaFunctionQueryParam>,
    pub outputs: Vec<AnkhaFunctionQueryParam>,
}

/// A declared parameter of a function: a name and the managed-container role
/// the function expects there (`Any` accepts every role).
#[derive(Debug, Clone, PartialEq, Eq)]
pub struct AnkhaFunctionParameter {
    pub name: String,
    pub kind: AnkhaValueKind,
}

/// How a host function exchanges one value with the stack: as a managed owned
/// container, or as a raw (unmanaged) record.
#[derive(Debug, Clone, Copy, PartialEq, Eq, Structural)]
pub enum HostPassing {
    Owned,
    Raw,
}

/// The body of a registered function.
#[derive(Debug)]
pub enum FnBody {
    /// A host-native function, dispatched through the host by `id`. Arguments
    /// are popped from the stack in declared order, decoded to literals and
    /// handed to the host; the returned literals are pushed back, first
    /// output pushed first.
    Host { id: u64, passing: HostPassing },
    /// A scripted function: its body runs in a fresh scope with the declared
    /// inputs popped into registers.
    Script(crate::script::AnkhaScript),
}

/// A registered function.
#[derive(Debug)]
pub struct FunctionDef {
    pub name: String,
    pub module_name: Option<String>,
    pub owner: Option<TypeHash>,
    pub visibility: Visibility,
    pub inputs: Vec<AnkhaFunctionParameter>,
    pub outputs: Vec<AnkhaFunctionParameter>,
    pub body: FnBody,
}

impl AnkhaTypeQuery {
    /// Copy a type query exactly.
    pub fn duplicate(&self) -> (r: AnkhaTypeQuery)
        ensures
            r == *self,
    {
        AnkhaTypeQuery {
            name: match &self.name {
                Some(n) => Some(n.clone()),
                None => None,
            },
            module_name: match &self.module_name {
                Some(m) => Some(m.clone()),
                None => None,
            },
            type_hash: self.type_hash,
            visibility: self.visibility,
        }
    }
}

impl AnkhaFieldQuery {
    /// Copy a field query exactly.
    pub fn duplicate(&self) -> (r: AnkhaFieldQuery)
        ensures
            r == *self,
    {
        AnkhaFieldQuery {
            name: self.name.clone(),
            kind: self.kind,
            type_hash: self.type_hash,
            visibility: self.visibility,
        }
    }
}

impl AnkhaFunctionQueryParam {
    /// Copy a parameter query exactly.
    pub fn duplicate(&self) -> (r: AnkhaFunctionQueryParam)
        ensures
            r == *self,
    {
        AnkhaFunctionQueryParam {
            name: match &self.name {
                Some(n) => Some(n.clone()),
                None => None,
            },
            kind: self.kind,
        }
    }
}

/// Copy a list of parameter queries exactly.
pub fn duplicate_query_params(ps: &Vec<AnkhaFunctionQueryParam>) -> (r: Vec<
    AnkhaFunctionQueryParam,
>)
    ensures
        r@ == ps@,
{
    let mut out: Vec<AnkhaFunctionQueryParam> = Vec::new();
    let mut i: usize = 0;
    while i < ps.len()
        invariant
            0 <= i <= ps@.len(),
            out@ == ps@.take(i as int),
        decreases ps@.len() - i,
    {
        out.push(ps[i].duplicate());
        proof {
            assert(out@ =~= ps@.take(i + 1));
        }
        i = i + 1;
    }
    proof {
        assert(out@ =~= ps@);
    }
    out
}

/// Whether two function queries ask for the same thing: equal in every
/// field, the parameter lists compared element for element.
pub open spec fn fq_equiv(a: AnkhaFunctionQuery, b: AnkhaFunctionQuery) -> bool {
    &&& a.name == b.name
    &&& a.module_name == b.module_name
    &&& a.owner == b.owner
    &&& a.visibility == b.visibility
    &&& a.inputs@ == b.inputs@
    &&& a.outputs@ == b.outputs@
}

impl AnkhaFunctionQuery {
    /// Copy a function query, field for field.
    pub fn duplicate(&self) -> (r: AnkhaFunctionQuery)
        ensures
            fq_equiv(r, *self),
    {
        AnkhaFunctionQuery {
            name: match &self.name {
                Some(n) => Some(n.clone()),
                None => None,
            },
            module_name: match &self.module_name {
                Some(m) => Some(m.clone()),
                None => None,
            },
            owner: self.owner,
            visibility: self.visibility,
            inputs: duplicate_query_params(&self.inputs),
            outputs: duplicate_query_params(&self.outputs),
        }
    }
}

/// Whether a type matches a type query: every specified query field must
/// equal the type's, unspecified fields match anything.
pub open spec fn type_matches(t: &TypeDef, q: &AnkhaTypeQuery) -> bool {
    &&& match q.name {
        Some(n) => t.name@ == n@,
        None => true,
    }
    &&& match q.module_name {
        Some(m) => t.module_name matches Some(tm) && tm@ == m@,
        None => true,
    }
    &&& match q.type_hash {
        Some(h) => t.type_hash == h,
        None => true,
    }
    &&& match q.visibility {
        Some(v) => t.visibility == v,
        None => true,
    }
}

pub fn exec_type_matches(t: &TypeDef, q: &AnkhaTypeQuery) -> (r: bool)
    ensures
        r == type_matches(t, q),
{
    let name_ok = match &q.name {
        Some(n) => t.name == *n,
        None => true,
    };
    let module_ok = match &q.module_name {
        Some(m) => match &t.module_name {
            Some(tm) => *tm == *m,
            None => false,
        },
        None => true,
    };
    let hash_ok = match q.type_hash {
        Some(h) => t.type_hash == h,
        None => true,
    };
    let vis_ok = match q.visibility {
        Some(v) => t.visibility == v,
        None => true,
    };
    name_ok && module_ok && hash_ok && vis_ok
}

/// Whether a struct field matches a field query. The queried kind `Any`
/// matches every field; a specific kind must equal the field's declared kind.
pub open spec fn field_matches(f: &FieldDef, q: &AnkhaFieldQuery) -> bool {
    &&& f.name@ == q.name@
    &&& (q.kind == AnkhaValueKind::Any || f.kind == q.kind)
    &&& match q.type_hash {
        Some(h) => f.type_hash == h,
        None => true,
    }
    &&& match q.visibility {
        Some(v) => f.visibility == v,
        None => true,
    }
}

pub fn exec_field_matches(f: &FieldDef, q: &AnkhaFieldQuery) -> (r: bool)
    ensures
        r == field_matches(f, q),
{
    let name_ok = f.name == q.name;
    let kind_ok = q.kind.is_any() || f.kind == q.kind;
    let hash_ok = match q.type_hash {
        Some(h) => f.type_hash == h,
        None => true,
    };
    let vis_ok = match q.visibility {
        Some(v) => f.visibility == v,
        None => true,
    };
    name_ok && kind_ok && hash_ok && vis_ok
}

/// Whether one declared parameter matches one query parameter.
pub open spec fn param_matches(p: &AnkhaFunctionParameter, q: &AnkhaFunctionQueryParam) -> bool {
    &&& match q.name {
        Some(n) => p.name@ == n@,
        None => true,
    }
    &&& match q.kind {
        Some(k) => p.kind == k,
        None => true,
    }
}

pub fn exec_param_matches(p: &AnkhaFunctionParameter, q: &AnkhaFunctionQueryParam) -> (r: bool)
    ensures
        r == param_matches(p, q),
{
    let name_ok = match &q.name {
        Some(n) => p.name == *n,
        None => true,
    };
    let kind_ok = match q.kind {
        Some(k) => p.kind == k,
        None => true,
    };
    name_ok && kind_ok
}

pub open spec fn params_match(ps: Seq<AnkhaFunctionParameter>, qs: Seq<AnkhaFunctionQueryParam>) -> bool {
    qs.len() == 0 || {
        &&& ps.len() == qs.len()
        &&& forall|i: int| 0 <= i < ps.len() ==> param_matches(#[trigger] &ps[i], &qs[i])
    }
}

pub fn exec_params_match(ps: &Vec<AnkhaFunctionParameter>, qs: &Vec<AnkhaFunctionQueryParam>) -> (r:
    bool)
    ensures
        r == params_match(ps@, qs@),
{
    if qs.len() == 0 {
        return true;
    }
    if ps.len() != qs.len() {
        return false;
    }
    let mut i: usize = 0;
    while i < ps.len()
        invariant
            0 <= i <= ps.len(),
            ps@.len() == qs@.len(),
            forall|j: int| 0 <= j < i ==> param_matches(#[trigger] &ps@[j], &qs@[j]),
        decreases ps@.len() - i,
    {
        if !exec_param_matches(&ps[i], &qs[i]) {
            return false;
        }
        i = i + 1;
    }
    true
}

/// Whether a function matches a function query.
pub open spec fn function_matches(f: &FunctionDef, q: &AnkhaFunctionQuery) -> bool {
    &&& match q.name {
        Some(n) => f.name@ == n@,
        None => true,
    }
    &&& match q.module_name {
        Some(m) => f.module_name matches Some(fm) && fm@ == m@,
        None => true,
    }
    &&& match q.owner {
        Some(h) => f.owner == Some(h),
        None => true,
    }
    &&& match q.visibility {
        Some(v) => f.visibility == v,
        None => true,
    }
    &&& params_match(f.inputs@, q.inputs@)
    &&& params_match(f.outputs@, q.outputs@)
}

pub fn exec_function_matches(f: &FunctionDef, q: &AnkhaFunctionQuery) -> (r: bool)
    ensures
        r == function_matches(f, q),
{
    let name_ok = match &q.name {
        Some(n) => f.name == *n,
        None => true,
    };
    let module_ok = match &q.module_name {
        Some(m) => match &f.module_name {
            Some(fm) => *fm == *m,
            None => false,
        },
        None => true,
    };
    let owner_ok = match q.owner {
        Some(h) => match f.owner {
            Some(fh) => fh == h,
            None => false,
        },
        None => true,
    };
    let vis_ok = match q.visibility {
        Some(v) => f.visibility == v,
        None => true,
    };
    name_ok && module_ok && owner_ok && vis_ok && exec_params_match(&f.inputs, &q.inputs)
        && exec_params_match(&f.outputs, &q.outputs)
}

/// The index of the first type in `ts` that matches `q`.
pub open spec fn spec_find_type(ts: Seq<TypeDef>, q: &AnkhaTypeQuery) -> Option<int>
    decreases ts.len(),
{
    if ts.len() == 0 {
        None
    } else if type_matches(&ts[0], q) {
        Some(0)
    } else {
        match spec_find_type(ts.drop_first(), q) {
            Some(i) => Some(i + 1),
            None => None,
        }
    }
}

/// The index of the first function in `fs` that matches `q`.
pub open spec fn spec_find_function(fs: Seq<FunctionDef>, q: &AnkhaFunctionQuery) -> Option<int>
    decreases fs.len(),
{
    if fs.len() == 0 {
        None
    } else if function_matches(&fs[0], q) {
        Some(0)
    } else {
        match spec_find_function(fs.drop_first(), q) {
            Some(i) => Some(i + 1),
            None => None,
        }
    }
}

/// The index of the first field in `fields` that matches `q`.
pub open spec fn spec_find_field(fields: Seq<FieldDef>, q: &AnkhaFieldQuery) -> Option<int>
    decreases fields.len(),
{
    if fields.len() == 0 {
        None
    } else if field_matches(&fields[0], q) {
        Some(0)
    } else {
        match spec_find_field(fields.drop_first(), q) {
            Some(i) => Some(i + 1),
            None => None,
        }
    }
}

proof fn lemma_spec_find_type_prefix(ts: Seq<TypeDef>, q: &AnkhaTypeQuery, i: int)
    requires
        0 <= i <= ts.len(),
        forall|j: int| 0 <= j < i ==> !type_matches(#[trigger] &ts[j], q),
    ensures
        spec_find_type(ts, q) == match spec_find_type(ts.skip(i), q) {
            Some(k) => Some(k + i),
            None => None::<int>,
        },
    decreases i,
{
    if i == 0 {
        assert(ts.skip(0) =~= ts);
    } else {
        assert(!type_matches(&ts[0], q));
        lemma_spec_find_type_prefix(ts.drop_first(), q, i - 1);
        assert(ts.drop_first().skip(i - 1) =~= ts.skip(i));
    }
}

proof fn lemma_spec_find_function_prefix(fs: Seq<FunctionDef>, q: &AnkhaFunctionQuery, i: int)
    requires
        0 <= i <= fs.len(),
        forall|j: int| 0 <= j < i ==> !function_matches(#[trigger] &fs[j], q),
    ensures
        spec_find_function(fs, q) == match spec_find_function(fs.skip(i), q) {
            Some(k) => Some(k + i),
            None => None::<int>,
        },
    decreases i,
{
    if i == 0 {
        assert(fs.skip(0) =~= fs);
    } else {
        assert(!function_matches(&fs[0], q));
        lemma_spec_find_function_prefix(fs.drop_first(), q, i - 1);
        assert(fs.drop_first().skip(i - 1) =~= fs.skip(i));
    }
}

proof fn lemma_spec_find_field_prefix(fields: Seq<FieldDef>, q: &AnkhaFieldQuery, i: int)
    requires
        0 <= i <= fields.len(),
        forall|j: int| 0 <= j < i ==> !field_matches(#[trigger] &fields[j], q),
    ensures
        spec_find_field(fields, q) == match spec_find_field(fields.skip(i), q) {
            Some(k) => Some(k + i),
            None => None::<int>,
        },
    decreases i,
{
    if i == 0 {
        assert(fields.skip(0) =~= fields);
    } else {
        assert(!field_matches(&fields[0], q));
        lemma_spec_find_field_prefix(fields.drop_first(), q, i - 1);
        assert(fields.drop_first().skip(i - 1) =~= fields.skip(i));
    }
}

proof fn lemma_find_hash_prefix(ts: Seq<TypeDef>, type_hash: TypeHash, i: int)
    requires
        0 <= i <= ts.len(),
        forall|j: int| 0 <= j < i ==> (#[trigger] ts[j]).type_hash != type_hash,
    ensures
        Registry::spec_find_type_by_hash(ts, type_hash) == match Registry::spec_find_type_by_hash(
            ts.skip(i),
            type_hash,
        ) {
            Some(k) => Some(k + i),
            None => None::<int>,
        },
    decreases i,
{
    if i == 0 {
        assert(ts.skip(0) =~= ts);
    } else {
        assert(ts[0].type_hash != type_hash);
        lemma_find_hash_prefix(ts.drop_first(), type_hash, i - 1);
        assert(ts.drop_first().skip(i - 1) =~= ts.skip(i));
    }
}

/// Find the first field of `fields` matching `q`, with its index.
pub fn find_field<'a>(fields: &'a Vec<FieldDef>, q: &AnkhaFieldQuery) -> (r: Option<(usize, &'a FieldDef)>)
    ensures
        match r {
            Some((i, f)) => {
                &&& spec_find_field(fields@, q) == Some(i as int)
                &&& i < fields@.len()
                &&& *f == fields@[i as int]
                &&& field_matches(f, q)
            },
            None => spec_find_field(fields@, q) is None,
        },
{
    let mut i: usize = 0;
    while i < fields.len()
        invariant
            0 <= i <= fields@.len(),
            forall|j: int| 0 <= j < i ==> !field_matches(#[trigger] &fields@[j], q),
        decreases fields@.len() - i,
    {
        if exec_field_matches(&fields[i], q) {
            proof {
                lemma_spec_find_field_prefix(fields@, q, i as int);
                assert(fields@.skip(i as int)[0] == fields@[i as int]);
            }
            return Some((i, &fields[i]));
        }
        i = i + 1;
    }
    proof {
        lemma_spec_find_field_prefix(fields@, q, fields@.len() as int);
        assert(fields@.skip(fields@.len() as int).len() == 0);
    }
    None
}

/// The registry: every registered type and function, in registration order.
/// It is installed once by the host and immutable during evaluation.
#[derive(Debug)]
pub struct Registry {
    pub types: Vec<TypeDef>,
    pub functions: Vec<FunctionDef>,
}

impl Registry {
    /// An empty registry.
    pub fn new() -> (r: Registry)
        ensures
            r.types@.len() == 0,
            r.functions@.len() == 0,
    {
        Registry { types: Vec::new(), functions: Vec::new() }
    }

    /// Whether some registered type already uses `type_hash`.
    pub open spec fn spec_has_type_hash(&self, type_hash: TypeHash) -> bool {
        exists|i: int| 0 <= i < self.types@.len() && self.types@[i].type_hash == type_hash
    }

    /// Register a type. Fails when another type with the same hash exists:
    /// two types are the same type exactly when their hashes are equal.
    pub fn add_type(&mut self, t: TypeDef) -> (r: Result<(), Abort>)
        ensures
            match r {
                Ok(u) => {
                    &&& !old(self).spec_has_type_hash(t.type_hash)
                    &&& final(self).types@ == old(self).types@.push(t)
                },
                Err(a) => {
                    &&& a == Abort::TypeMismatch
                    &&& old(self).spec_has_type_hash(t.type_hash)
                    &&& final(self).types@ == old(self).types@
                },
            },
            final(self).functions@ == old(self).functions@,
    {
        let mut i: usize = 0;
        while i < self.types.len()
            invariant
                0 <= i <= self.types@.len(),
                forall|j: int| 0 <= j < i ==> (#[trigger] self.types@[j]).type_hash != t.type_hash,
            decreases self.types@.len() - i,
        {
            if self.types[i].type_hash == t.type_hash {
                return Err(Abort::TypeMismatch);
            }
            i = i + 1;
        }
        self.types.push(t);
        Ok(())
    }

    /// Register a function. Functions may share names; queries disambiguate.
    pub fn add_function(&mut self, f: FunctionDef)
        ensures
            final(self).functions@ == old(self).functions@.push(f),
            final(self).types@ == old(self).types@,
    {
        self.functions.push(f);
    }

    /// Find the first registered type matching `q`, with its index.
    pub fn find_type<'a>(&'a self, q: &AnkhaTypeQuery) -> (r: Option<(usize, &'a TypeDef)>)
        ensures
            match r {
                Some((i, t)) => {
                    &&& spec_find_type(self.types@, q) == Some(i as int)
                    &&& i < self.types@.len()
                    &&& *t == self.types@[i as int]
                    &&& type_matches(t, q)
                },
                None => spec_find_type(self.types@, q) is None,
            },
    {
        let mut i: usize = 0;
        while i < self.types.len()
            invariant
                0 <= i <= self.types@.len(),
                forall|j: int| 0 <= j < i ==> !type_matches(#[trigger] &self.types@[j], q),
            decreases self.types@.len() - i,
        {
            if exec_type_matches(&self.types[i], q) {
                proof {
                    lemma_spec_find_type_prefix(self.types@, q, i as int);
                    assert(self.types@.skip(i as int)[0] == self.types@[i as int]);
                }
                return Some((i, &self.types[i]));
            }
            i = i + 1;
        }
        proof {
            lemma_spec_find_type_prefix(self.types@, q, self.types@.len() as int);
        }
        None
    }

    /// The index of the first registered type with the given hash.
    pub open spec fn spec_find_type_by_hash(ts: Seq<TypeDef>, type_hash: TypeHash) -> Option<int>
        decreases ts.len(),
    {
        if ts.len() == 0 {
            None
        } else if ts[0].type_hash == type_hash {
            Some(0)
        } else {
            match Self::spec_find_type_by_hash(ts.drop_first(), type_hash) {
                Some(i) => Some(i + 1),
                None => None,
            }
        }
    }

    /// Find the first registered type with the given hash.
    pub fn find_type_by_hash<'a>(&'a self, type_hash: TypeHash) -> (r: Option<(usize, &'a TypeDef)>)
        ensures
            match r {
                Some((i, t)) => {
                    &&& Self::spec_find_type_by_hash(self.types@, type_hash) == Some(i as int)
                    &&& i < self.types@.len()
                    &&& *t == self.types@[i as int]
                    &&& t.type_hash == type_hash
                },
                None => {
                    &&& Self::spec_find_type_by_hash(self.types@, type_hash) is None
                    &&& !self.spec_has_type_hash(type_hash)
                },
            },
    {
        let mut i: usize = 0;
        while i < self.types.len()
            invariant
                0 <= i <= self.types@.len(),
                forall|j: int| 0 <= j < i ==> (#[trigger] self.types@[j]).type_hash != type_hash,
            decreases self.types@.len() - i,
        {
            if self.types[i].type_hash == type_hash {
                proof {
                    lemma_find_hash_prefix(self.types@, type_hash, i as int);
                }
                return Some((i, &self.types[i]));
            }
            i = i + 1;
        }
        proof {
            lemma_find_hash_prefix(self.types@, type_hash, self.types@.len() as int);
        }
        None
    }

    /// Find the first registered function matching `q`, with its index.
    pub fn find_function<'a>(&'a self, q: &AnkhaFunctionQuery) -> (r: Option<(usize, &'a FunctionDef)>)
        ensures
            match r {
                Some((i, f)) => {
                    &&& spec_find_function(self.functions@, q) == Some(i as int)
                    &&& i < self.functions@.len()
                    &&& *f == self.functions@[i as int]
                    &&& function_matches(f, q)
                },
                None => spec_find_function(self.functions@, q) is None,
            },
    {
        let mut i: usize = 0;
        while i < self.functions.len()
            invariant
                0 <= i <= self.functions@.len(),
                forall|j: int| 0 <= j < i ==> !function_matches(#[trigger] &self.functions@[j], q),
            decreases self.functions@.len() - i,
        {
            if exec_function_matches(&self.functions[i], q) {
                proof {
                    lemma_spec_find_function_prefix(self.functions@, q, i as int);
                    assert(self.functions@.skip(i as int)[0] == self.functions@[i as int]);
                }
                return Some((i, &self.functions[i]));
            }
            i = i + 1;
        }
        proof {
            lemma_spec_find_function_prefix(self.functions@, q, self.functions@.len() as int);
        }
        None
    }
}

} // verus!
