use vstd::prelude::*;
use crate::class_error::{ClassError, ClassResult};
use crate::class_file::Class;
use crate::const_pool::str_at;
use crate::format::{ClassVal, magic, parse_class};
use crate::loader::{class_cost, class_holds, class_spent, lemma_holds_agrees, same_range};
use crate::mapping::{kept, lemma_kept_trans, lemma_new_name_is_item};
use crate::mapping::{Mappable, Mapping};
use crate::mem::{CLASS_MAPPING, CLASS_MEMORY, CODE_MEMORY, MemoryRange};

verus! {

/// How many slots the class-name table starts with.
pub const DEFAULT_CLASSES: usize = 8;

/// Whether a decoded class has a name: a non-empty string in slot zero of its pool.
pub open spec fn has_name(v: ClassVal) -> bool {
    v.pool.len() > 0 && v.pool[0] is Str && str_at(v.pool, 0).len() > 0
}

/// Loads classes and keeps them by name. It owns the arenas: class metadata,
/// the class-name table's slots, and bytecode.
pub struct ClassLoader {
    mapping: MemoryRange,
    memory: MemoryRange,
    code: MemoryRange,
    classes: Mapping<Class>,
}

impl ClassLoader {
    /// The class-name table.
    pub closed spec fn table(self) -> Mapping<Class> {
        self.classes
    }

    /// The arena the class-name table takes its slots from.
    pub closed spec fn table_arena(self) -> MemoryRange {
        self.mapping
    }

    /// The arena class metadata is taken from.
    pub closed spec fn meta_arena(self) -> MemoryRange {
        self.memory
    }

    /// The arena bytecode is copied into.
    pub closed spec fn code_arena(self) -> MemoryRange {
        self.code
    }

    /// The class-name table is well formed.
    pub open spec fn wf(self) -> bool {
        self.table().wf() && self.table().cap() > 0
    }

    /// A loader with empty arenas at their fixed addresses, committing
    /// memory in pages of `page_size` bytes, and a class-name table of
    /// eight slots; `OutOfMemory` where an arena cannot be had.
    pub fn new(page_size: usize) -> (r: ClassResult<Self>)
        ensures
            r is Ok ==> {
                &&& r->Ok_0.wf()
                &&& r->Ok_0.table().count() == 0
                &&& r->Ok_0.table().cap() == DEFAULT_CLASSES
            },
            r is Err ==> r == Err::<Self, ClassError>(ClassError::OutOfMemory),
            page_size == 0 ==> r is Err,
            r is Ok <==> page_size > 0 && 2 * (CODE_MEMORY as nat) <= usize::MAX
                && vstd::layout::size_of::<Class>() * DEFAULT_CLASSES <= CLASS_MAPPING,
            r is Ok ==> {
                let l = r->Ok_0;
                &&& MemoryRange::fresh(l.meta_arena(), CLASS_MEMORY as nat, page_size as nat, false)
                &&& MemoryRange::fresh(l.code_arena(), CODE_MEMORY as nat, page_size as nat, true)
                &&& l.table_arena().base() == CLASS_MAPPING
                &&& l.table_arena().reserved() == CLASS_MAPPING
                &&& l.table_arena().cursor() == vstd::layout::size_of::<Class>() * DEFAULT_CLASSES
                &&& l.table_arena().page() == page_size
                &&& !l.table_arena().is_exec()
            },
    {
        let memory = match MemoryRange::at(CLASS_MEMORY, page_size) {
            Some(m) => m,
            None => return Err(ClassError::OutOfMemory),
        };
        let mut mapping = match MemoryRange::at(CLASS_MAPPING, page_size) {
            Some(m) => m,
            None => return Err(ClassError::OutOfMemory),
        };
        if CODE_MEMORY > usize::MAX as u64 {
            return Err(ClassError::OutOfMemory);
        }
        let code = match MemoryRange::at_exec(CODE_MEMORY as usize, page_size) {
            Some(c) => c,
            None => return Err(ClassError::OutOfMemory),
        };
        let classes = match Mapping::<Class>::from(&mut mapping, DEFAULT_CLASSES) {
            Some(c) => c,
            None => return Err(ClassError::OutOfMemory),
        };
        Ok(ClassLoader { mapping, memory, code, classes })
    }

    /// Room for `size` bytes of class metadata.
    pub fn alloc_bytes(&mut self, size: usize) -> (r: ClassResult<usize>)
        ensures
            final(self).table() == old(self).table(),
            final(self).table_arena() == old(self).table_arena(),
            final(self).code_arena() == old(self).code_arena(),
            same_range(final(self).meta_arena(), old(self).meta_arena()),
            r is Ok <==> old(self).meta_arena().cursor() + size <= old(self).meta_arena().reserved(),
            r is Ok ==> r->Ok_0 == old(self).meta_arena().base() + old(self).meta_arena().cursor(),
            r is Ok ==> final(self).meta_arena().cursor() == old(self).meta_arena().cursor() + size,
            r is Err ==> r == Err::<usize, ClassError>(ClassError::OutOfMemory),
            r is Err ==> *final(self) == *old(self),
    {
        proof {
            use_type_invariant(&self.memory);
            self.memory.lemma_bounds();
        }
        match self.memory.alloc_bytes(size) {
            Some(a) => Ok(a),
            None => Err(ClassError::OutOfMemory),
        }
    }

    /// Room for `amount` values of `T` in class metadata.
    pub fn alloc_many<T>(&mut self, amount: usize) -> (r: ClassResult<usize>)
        ensures
            final(self).table() == old(self).table(),
            final(self).table_arena() == old(self).table_arena(),
            final(self).code_arena() == old(self).code_arena(),
            same_range(final(self).meta_arena(), old(self).meta_arena()),
            r is Ok <==> old(self).meta_arena().cursor() + vstd::layout::size_of::<T>() * amount
                <= old(self).meta_arena().reserved(),
            r is Ok ==> r->Ok_0 == old(self).meta_arena().base() + old(self).meta_arena().cursor(),
            r is Ok ==> final(self).meta_arena().cursor() == old(self).meta_arena().cursor()
                + vstd::layout::size_of::<T>() * amount,
            r is Err ==> r == Err::<usize, ClassError>(ClassError::OutOfMemory),
            r is Err ==> *final(self) == *old(self),
    {
        proof {
            use_type_invariant(&self.memory);
            self.memory.lemma_bounds();
        }
        match self.memory.alloc_many::<T>(amount) {
            Some(a) => Ok(a),
            None => Err(ClassError::OutOfMemory),
        }
    }

    /// An empty table of `capacity` slots, its room taken from class metadata.
    pub fn alloc_mapping<V: Mappable>(&mut self, capacity: usize) -> (r: ClassResult<Mapping<V>>)
        ensures
            final(self).table() == old(self).table(),
            r is Ok <==> old(self).meta_arena().cursor() + vstd::layout::size_of::<V>() * capacity
                <= old(self).meta_arena().reserved(),
            r is Ok ==> r->Ok_0.wf() && r->Ok_0.cap() == capacity && r->Ok_0.count() == 0,
            r is Ok ==> final(self).meta_arena().cursor() == old(self).meta_arena().cursor()
                + vstd::layout::size_of::<V>() * capacity,
            same_range(final(self).meta_arena(), old(self).meta_arena()),
            r is Err ==> r == Err::<Mapping<V>, ClassError>(ClassError::OutOfMemory),
            r is Err ==> *final(self) == *old(self),
    {
        match Mapping::<V>::from(&mut self.memory, capacity) {
            Some(m) => Ok(m),
            None => Err(ClassError::OutOfMemory),
        }
    }

    /// The class-name table.
    pub fn classes(&self) -> (r: &Mapping<Class>)
        ensures
            *r == self.table(),
    {
        &self.classes
    }

    /// The class named `class_name`, if one has been loaded.
    pub fn find(&self, class_name: &[u8]) -> (r: Option<&Class>)
        requires
            self.wf(),
        ensures
            r is Some <==> self.table().lookup(class_name@) is Some,
            r is Some ==> *r.unwrap() == self.table().slots()[self.table().lookup(
                class_name@,
            )->Some_0]->Some_0,
            r is Some <==> self.table().contains(class_name@),
            r is Some ==> r.unwrap().class_name() == class_name@,
    {
        self.classes.find(class_name)
    }

    /// Registers the decoded class `class` under its name, which it returns.
    /// A name already registered leaves the table as it is. Where the table
    /// is full it is doubled once, with room from its arena.
    #[verifier::rlimit(100)]
    fn register(&mut self, class: Class) -> (r: ClassResult<Vec<u8>>)
        requires
            old(self).wf(),
            class.file().next_class == 0,
        ensures
            final(self).wf(),
            final(self).code_arena() == old(self).code_arena(),
            r is Ok ==> r->Ok_0@ == class.class_name(),
            r is Err ==> r == Err::<Vec<u8>, ClassError>(ClassError::OutOfMemory),
            r is Err ==> final(self).table() == old(self).table(),
            r is Ok ==> forall|k: Seq<u8>|
                #![trigger final(self).table().contains(k)]
                #![trigger old(self).table().contains(k)]
                final(self).table().contains(k) <==> (old(self).table().contains(k) || k
                    == class.class_name()),
            r is Ok && old(self).table().contains(class.class_name()) ==> final(self).table() == old(
                self,
            ).table(),
            r is Ok && !old(self).table().contains(class.class_name()) ==> {
                &&& final(self).table().count() == old(self).table().count() + 1
                &&& final(self).table().lookup(class.class_name()) is Some
                &&& final(self).table().slots()[final(self).table().lookup(
                    class.class_name(),
                )->Some_0]->Some_0.agrees(class)
            },
            kept(old(self).table().slots(), final(self).table().slots(), None),
            ({
                let t = old(self).table();
                &&& old(self).meta_arena().cursor() + vstd::layout::size_of::<Class>() <= old(
                    self,
                ).meta_arena().reserved()
                &&& (t.count() < t.cap() || t.contains(class.class_name()) || (2 * t.cap()
                    <= usize::MAX && old(self).table_arena().cursor() + vstd::layout::size_of::<
                    Class,
                >() * (2 * t.cap()) <= old(self).table_arena().reserved()))
            }) ==> r is Ok,
            ({
                let t = old(self).table();
                &&& !t.contains(class.class_name())
                &&& t.count() == t.cap()
                &&& old(self).table_arena().cursor() + vstd::layout::size_of::<Class>() * (2 * t.cap())
                    > old(self).table_arena().reserved()
            }) ==> r is Err,
            final(self).table().cap() == old(self).table().cap() || final(self).table().cap() == 2
                * old(self).table().cap(),
            old(self).table().count() < old(self).table().cap() ==> final(self).table().cap()
                == old(self).table().cap(),
            final(self).table().cap() == 2 * old(self).table().cap() ==> {
                &&& old(self).table().count() == old(self).table().cap()
                &&& final(self).table_arena().cursor() == old(self).table_arena().cursor()
                    + vstd::layout::size_of::<Class>() * (2 * old(self).table().cap())
            },
            r is Ok && old(self).table().count() == old(self).table().cap() && !old(self).table().contains(
                class.class_name(),
            ) ==> final(self).table().cap() == 2 * old(self).table().cap(),
            old(self).table().count() == old(self).table().cap() && old(self).table_arena().cursor()
                + vstd::layout::size_of::<Class>() * (2 * old(self).table().cap()) > old(self).table_arena().reserved()
                ==> final(self).table() == old(self).table(),
    {
        proof {
            self.classes.lemma_count_bound();
            self.classes.lemma_kept_refl();
        }
        let name = vstd::slice::slice_to_vec(class.id());
        if self.classes.find(class.id()).is_some() {
            return Ok(name);
        }
        match self.memory.alloc_many::<Class>(1) {
            Some(_) => {},
            None => return Err(ClassError::OutOfMemory),
        }
        let ghost t0 = self.classes;
        if self.classes.len() >= self.classes.capacity() {
            if !self.classes.expand(&mut self.mapping) {
                return Err(ClassError::OutOfMemory);
            }
        }
        let ghost t1 = self.classes;
        let ghost key = class.key();
        let ghost class_copy = class;
        match self.classes.insert(class) {
            Some(()) => {
                proof {
                    self.classes.lemma_contained_found(key);
                    if t1 != t0 {
                        lemma_kept_trans(t0.slots(), t1.slots(), self.classes.slots());
                    }
                    let l = self.classes.lookup(key)->Some_0;
                    lemma_new_name_is_item(t0.slots(), t1.slots(), self.classes.slots(), class_copy, l);
                }
                Ok(name)
            },
            None => Err(ClassError::OutOfMemory),
        }
    }

    /// Decodes the class file `bytes` and registers the class under its name,
    /// which it returns.
    /// A class whose name is already registered leaves the table as it is.
    /// Where the table is full it is doubled once, with room from its arena.
    /// On any error nothing is registered.
    pub fn load_class(&mut self, bytes: &[u8]) -> (r: ClassResult<Vec<u8>>)
        requires
            old(self).wf(),
        ensures
            final(self).wf(),
            r is Ok ==> {
                let v = parse_class(bytes@)->Ok_0;
                let name = str_at(v.pool, 0);
                &&& parse_class(bytes@) is Ok
                &&& has_name(v)
                &&& r->Ok_0@ == name
                &&& forall|k: Seq<u8>|
                    #![trigger final(self).table().contains(k)]
                    #![trigger old(self).table().contains(k)]
                    final(self).table().contains(k) <==> (old(self).table().contains(k) || k
                        == name)
                &&& old(self).table().contains(name) ==> final(self).table() == old(self).table()
                &&& !old(self).table().contains(name) ==> {
                    &&& final(self).table().count() == old(self).table().count() + 1
                    &&& final(self).table().lookup(name) is Some
                    &&& class_holds(
                        final(self).table().slots()[final(self).table().lookup(name)->Some_0]->Some_0,
                        v,
                    )
                }
            },
            r is Err ==> final(self).table() == old(self).table(),
            parse_class(bytes@) is Err && old(self).meta_arena().cursor() + class_spent(bytes@) <= old(
                self,
            ).meta_arena().reserved() ==> r == Err::<Vec<u8>, ClassError>(parse_class(bytes@)->Err_0),
            bytes@.len() < 4 || bytes@.subrange(0, 4) != magic() ==> {
                &&& r == Err::<Vec<u8>, ClassError>(ClassError::BadClassMagic)
                &&& final(self).meta_arena() == old(self).meta_arena()
                &&& final(self).code_arena() == old(self).code_arena()
                &&& final(self).table_arena() == old(self).table_arena()
                &&& final(self).table() == old(self).table()
            },
            kept(old(self).table().slots(), final(self).table().slots(), None),
            r is Err && r->Err_0 != ClassError::OutOfMemory ==> parse_class(bytes@) == Err::<
                ClassVal,
                ClassError,
            >(r->Err_0) || (r->Err_0 == ClassError::BadClassName && parse_class(bytes@) is Ok
                && !has_name(parse_class(bytes@)->Ok_0)),
            parse_class(bytes@) is Err ==> r is Err,
            parse_class(bytes@) is Ok && !has_name(parse_class(bytes@)->Ok_0) ==> r is Err,
            ({
                let v = parse_class(bytes@)->Ok_0;
                let t = old(self).table();
                &&& parse_class(bytes@) is Ok
                &&& has_name(v)
                &&& old(self).meta_arena().cursor() + class_cost(v) + vstd::layout::size_of::<Class>()
                    <= old(self).meta_arena().reserved()
                &&& old(self).code_arena().cursor() + v.code.len() <= old(self).code_arena().reserved()
                &&& (t.count() < t.cap() || t.contains(str_at(v.pool, 0)) || (2 * t.cap() <= usize::MAX
                    && old(self).table_arena().cursor() + vstd::layout::size_of::<Class>() * (2
                    * t.cap()) <= old(self).table_arena().reserved()))
            }) ==> r is Ok,
            ({
                let v = parse_class(bytes@)->Ok_0;
                let t = old(self).table();
                &&& parse_class(bytes@) is Ok
                &&& !t.contains(str_at(v.pool, 0))
                &&& t.count() == t.cap()
                &&& old(self).table_arena().cursor() + vstd::layout::size_of::<Class>() * (2 * t.cap())
                    > old(self).table_arena().reserved()
            }) ==> r is Err,
            final(self).table().cap() == old(self).table().cap() || final(self).table().cap() == 2
                * old(self).table().cap(),
            old(self).table().count() < old(self).table().cap() ==> final(self).table().cap()
                == old(self).table().cap(),
            final(self).table().cap() == 2 * old(self).table().cap() ==> {
                &&& old(self).table().count() == old(self).table().cap()
                &&& final(self).table_arena().cursor() == old(self).table_arena().cursor()
                    + vstd::layout::size_of::<Class>() * (2 * old(self).table().cap())
            },
            r is Ok && old(self).table().count() == old(self).table().cap() && !old(self).table().contains(
                str_at(parse_class(bytes@)->Ok_0.pool, 0),
            ) ==> final(self).table().cap() == 2 * old(self).table().cap(),
            old(self).table().count() == old(self).table().cap() && old(self).table_arena().cursor()
                + vstd::layout::size_of::<Class>() * (2 * old(self).table().cap()) > old(self).table_arena().reserved()
                ==> final(self).table() == old(self).table(),
    {
        proof {
            self.classes.lemma_kept_refl();
            use_type_invariant(&self.code);
            self.code.lemma_bounds();
        }
        let class = match Class::load(bytes, &mut self.memory, &mut self.code) {
            Ok(c) => c,
            Err(e) => return Err(e),
        };
        let ghost v = parse_class(bytes@)->Ok_0;
        match class.class_file().const_pool.get_str(0) {
            Some(name) => {
                if name.len() == 0 {
                    return Err(ClassError::BadClassName);
                }
            },
            None => return Err(ClassError::BadClassName),
        }
        let ghost class_copy = class;
        let r = self.register(class);
        proof {
            if r is Ok && !old(self).table().contains(class_copy.class_name()) {
                let t = self.classes;
                let found = t.slots()[t.lookup(class_copy.class_name())->Some_0]->Some_0;
                lemma_holds_agrees(found, class_copy, v);
            }
        }
        r
    }
}

} // verus!
