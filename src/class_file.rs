use vstd::prelude::*;
use crate::const_pool::{ConstPool, str_at};
use crate::mapping::{Mappable, Mapping};

verus! {

/// What every field carries: its probe counter, its resolved name, and the
/// name of the class that owns it, under which the loader finds that class.
pub struct FieldContext {
    pub next_field: usize,
    pub name: Vec<u8>,
    pub class: Vec<u8>,
}

/// A field record; its shape is set by the kind of its class.
pub enum Field {
    /// A module's field: the pool index of another module.
    Module(FieldContext, u16),
    /// A struct's field: the pool indices of its name and of its type.
    Struct(FieldContext, u16, u16),
    /// An enum's field: the pool index of its name, and those of its named
    /// values in the order they were declared.
    Enum(FieldContext, u16, Vec<u16>),
}

/// A field record as a mathematical value.
pub enum FieldVal {
    Module(u16),
    Struct(u16, u16),
    Enum(u16, Seq<u16>),
}

impl FieldVal {
    /// The pool index of the field's name.
    pub open spec fn name_index(self) -> u16 {
        match self {
            FieldVal::Module(i) => i,
            FieldVal::Struct(i, _) => i,
            FieldVal::Enum(i, _) => i,
        }
    }
}

impl View for Field {
    type V = FieldVal;

    open spec fn view(&self) -> FieldVal {
        match self {
            Field::Module(_, m) => FieldVal::Module(*m),
            Field::Struct(_, n, t) => FieldVal::Struct(*n, *t),
            Field::Enum(_, n, values) => FieldVal::Enum(*n, values@),
        }
    }
}

impl Field {
    /// What the field carries whatever its shape.
    pub open spec fn ctx(self) -> FieldContext {
        match self {
            Field::Module(c, _) => c,
            Field::Struct(c, _, _) => c,
            Field::Enum(c, _, _) => c,
        }
    }

    /// What the field carries whatever its shape.
    pub fn context(&self) -> (r: &FieldContext)
        ensures
            *r == self.ctx(),
    {
        match self {
            Field::Module(c, _) => c,
            Field::Struct(c, _, _) => c,
            Field::Enum(c, _, _) => c,
        }
    }

    /// What the field carries, to change in place; its shape and indices stay.
    pub fn context_mut(&mut self) -> (r: &mut FieldContext)
        ensures
            *r == old(self).ctx(),
            final(self).ctx() == *final(r),
            final(self)@ == old(self)@,
    {
        match self {
            Field::Module(c, _) => c,
            Field::Struct(c, _, _) => c,
            Field::Enum(c, _, _) => c,
        }
    }

    /// The field's name.
    pub fn name(&self) -> (r: &[u8])
        ensures
            r@ == self.ctx().name@,
    {
        self.context().name.as_slice()
    }
}

impl Mappable for Field {
    open spec fn key(&self) -> Seq<u8> {
        self.ctx().name@
    }

    open spec fn probe(&self) -> nat {
        self.ctx().next_field as nat
    }

    open spec fn agrees(&self, other: Field) -> bool {
        &&& self@ == other@
        &&& self.ctx().name@ == other.ctx().name@
        &&& self.ctx().class@ == other.ctx().class@
    }

    proof fn lemma_agrees_refl(&self) {
    }

    proof fn lemma_agrees_key(&self, b: Field) {
    }

    proof fn lemma_agrees_sym(&self, b: Field) {
    }

    proof fn lemma_agrees_trans(&self, b: Field, c: Field) {
    }

    fn id(&self) -> (r: &[u8]) {
        self.name()
    }

    fn next(&self) -> (r: usize) {
        self.context().next_field
    }

    fn next_mut(&mut self) -> (r: &mut usize) {
        match self {
            Field::Module(c, _) => &mut c.next_field,
            Field::Struct(c, _, _) => &mut c.next_field,
            Field::Enum(c, _, _) => &mut c.next_field,
        }
    }
}

/// A method record: the pool index of its name, its access flags, where its
/// code starts in the class's bytecode, its resolved name, and the name of
/// the class that owns it, under which the loader finds that class.
pub struct Method {
    pub name: u16,
    pub access: u8,
    pub code_pos: u64,
    pub next_method: usize,
    pub key: Vec<u8>,
    pub class: Vec<u8>,
}

impl Method {
    /// The method's name.
    pub fn name(&self) -> (r: &[u8])
        ensures
            r@ == self.key@,
    {
        self.key.as_slice()
    }
}

impl Mappable for Method {
    open spec fn key(&self) -> Seq<u8> {
        self.key@
    }

    open spec fn probe(&self) -> nat {
        self.next_method as nat
    }

    open spec fn agrees(&self, other: Method) -> bool {
        &&& self.name == other.name
        &&& self.access == other.access
        &&& self.code_pos == other.code_pos
        &&& self.key@ == other.key@
        &&& self.class@ == other.class@
    }

    proof fn lemma_agrees_refl(&self) {
    }

    proof fn lemma_agrees_key(&self, b: Method) {
    }

    proof fn lemma_agrees_sym(&self, b: Method) {
    }

    proof fn lemma_agrees_trans(&self, b: Method, c: Method) {
    }

    fn id(&self) -> (r: &[u8]) {
        self.key.as_slice()
    }

    fn next(&self) -> (r: usize) {
        self.next_method
    }

    fn next_mut(&mut self) -> (r: &mut usize) {
        &mut self.next_method
    }
}

/// What a class of any kind holds.
pub struct ClassFile {
    pub access: u8,
    pub next_class: usize,
    pub const_pool: ConstPool,
    pub fields: Option<Mapping<Field>>,
    pub methods: Option<Mapping<Method>>,
    pub bytecode: Vec<u8>,
    pub code: usize,
}

/// A loaded class: its kind, wrapping what it holds.
pub enum Class {
    Enum(ClassFile),
    Struct(ClassFile),
    Module(ClassFile),
}

impl Class {
    /// What the class holds, whatever its kind.
    pub open spec fn file(self) -> ClassFile {
        match self {
            Class::Enum(f) => f,
            Class::Struct(f) => f,
            Class::Module(f) => f,
        }
    }

    /// The kind tag: 0 for an enum, 1 for a struct, 2 for a module.
    pub open spec fn kind(self) -> u8 {
        match self {
            Class::Enum(_) => 0,
            Class::Struct(_) => 1,
            Class::Module(_) => 2,
        }
    }

    /// The class's name: the string in slot zero of its pool, or the empty string.
    pub open spec fn class_name(self) -> Seq<u8> {
        str_at(self.file().const_pool.vals(), 0)
    }

    /// What the class holds, whatever its kind.
    pub fn class_file(&self) -> (r: &ClassFile)
        ensures
            *r == self.file(),
    {
        match self {
            Class::Enum(f) => f,
            Class::Struct(f) => f,
            Class::Module(f) => f,
        }
    }

    /// What the class holds, to change in place; its kind stays.
    pub fn class_file_mut(&mut self) -> (r: &mut ClassFile)
        ensures
            *r == old(self).file(),
            final(self).file() == *final(r),
            final(self).kind() == old(self).kind(),
    {
        match self {
            Class::Enum(f) => f,
            Class::Struct(f) => f,
            Class::Module(f) => f,
        }
    }

    /// The kind tag: 0 for an enum, 1 for a struct, 2 for a module.
    pub fn kind_tag(&self) -> (r: u8)
        ensures
            r == self.kind(),
    {
        match self {
            Class::Enum(_) => 0,
            Class::Struct(_) => 1,
            Class::Module(_) => 2,
        }
    }

    /// The class's name.
    pub fn name(&self) -> (r: &[u8])
        ensures
            r@ == self.class_name(),
    {
        self.class_file().const_pool.str_or_empty(0)
    }
}

impl Mappable for Class {
    open spec fn key(&self) -> Seq<u8> {
        self.class_name()
    }

    open spec fn probe(&self) -> nat {
        self.file().next_class as nat
    }

    open spec fn agrees(&self, other: Class) -> bool {
        let (a, b) = (self.file(), other.file());
        &&& self.kind() == other.kind()
        &&& a.access == b.access
        &&& a.const_pool == b.const_pool
        &&& a.fields == b.fields
        &&& a.methods == b.methods
        &&& a.bytecode@ == b.bytecode@
        &&& a.code == b.code
    }

    proof fn lemma_agrees_refl(&self) {
    }

    proof fn lemma_agrees_key(&self, b: Class) {
    }

    proof fn lemma_agrees_sym(&self, b: Class) {
    }

    proof fn lemma_agrees_trans(&self, b: Class, c: Class) {
    }

    fn id(&self) -> (r: &[u8]) {
        self.name()
    }

    fn next(&self) -> (r: usize) {
        self.class_file().next_class
    }

    fn next_mut(&mut self) -> (r: &mut usize) {
        match self {
            Class::Enum(f) => &mut f.next_class,
            Class::Struct(f) => &mut f.next_class,
            Class::Module(f) => &mut f.next_class,
        }
    }
}

} // verus!
