use vstd::prelude::*;

verus! {

/// A literal of a class's constant pool. Floating-point constants are kept
/// as their IEEE-754 bit patterns.
pub enum Const {
    Int(i64),
    UInt(u64),
    Float32(u32),
    Float64(u64),
    Str(Vec<u8>),
}

/// What a constant holds, as a mathematical value.
pub enum ConstVal {
    Int(int),
    UInt(nat),
    Float32(u32),
    Float64(u64),
    Str(Seq<u8>),
}

impl View for Const {
    type V = ConstVal;

    open spec fn view(&self) -> ConstVal {
        match self {
            Const::Int(v) => ConstVal::Int(*v as int),
            Const::UInt(v) => ConstVal::UInt(*v as nat),
            Const::Float32(v) => ConstVal::Float32(*v),
            Const::Float64(v) => ConstVal::Float64(*v),
            Const::Str(s) => ConstVal::Str(s@),
        }
    }
}

/// The views of a sequence of constants.
pub open spec fn const_vals(s: Seq<Const>) -> Seq<ConstVal> {
    s.map_values(|c: Const| c@)
}

/// The string at `index` of a pool, or the empty string where there is none.
pub open spec fn str_at(pool: Seq<ConstVal>, index: int) -> Seq<u8> {
    if 0 <= index < pool.len() {
        match pool[index] {
            ConstVal::Str(s) => s,
            _ => Seq::empty(),
        }
    } else {
        Seq::empty()
    }
}

/// The constants of a class, indexed from zero; slot zero names the class.
pub struct ConstPool {
    pool: Vec<Const>,
}

impl ConstPool {
    /// The constants, as values.
    pub closed spec fn vals(self) -> Seq<ConstVal> {
        const_vals(self.pool@)
    }

    /// A pool holding `pool`.
    pub fn new(pool: Vec<Const>) -> (r: Self)
        ensures
            r.vals() == const_vals(pool@),
    {
        ConstPool { pool }
    }

    /// How many constants the pool holds.
    pub fn len(&self) -> (r: usize)
        ensures
            r == self.vals().len(),
    {
        self.pool.len()
    }

    /// The constants.
    pub fn as_slice(&self) -> (r: &[Const])
        ensures
            const_vals(r@) == self.vals(),
    {
        self.pool.as_slice()
    }

    /// The signed integer at `index`, if that is what is there.
    pub fn get_int(&self, index: usize) -> (r: Option<i64>)
        ensures
            r is Some <==> index < self.vals().len() && self.vals()[index as int] is Int,
            r is Some ==> self.vals()[index as int] == ConstVal::Int(r.unwrap() as int),
    {
        if index < self.pool.len() {
            match &self.pool[index] {
                Const::Int(v) => Some(*v),
                _ => None,
            }
        } else {
            None
        }
    }

    /// The unsigned integer at `index`, if that is what is there.
    pub fn get_uint(&self, index: usize) -> (r: Option<u64>)
        ensures
            r is Some <==> index < self.vals().len() && self.vals()[index as int] is UInt,
            r is Some ==> self.vals()[index as int] == ConstVal::UInt(r.unwrap() as nat),
    {
        if index < self.pool.len() {
            match &self.pool[index] {
                Const::UInt(v) => Some(*v),
                _ => None,
            }
        } else {
            None
        }
    }

    /// The string at `index`, if that is what is there.
    pub fn get_str(&self, index: usize) -> (r: Option<&[u8]>)
        ensures
            r is Some <==> index < self.vals().len() && self.vals()[index as int] is Str,
            r is Some ==> r.unwrap()@ == str_at(self.vals(), index as int),
    {
        if index < self.pool.len() {
            match &self.pool[index] {
                Const::Str(s) => Some(s.as_slice()),
                _ => None,
            }
        } else {
            None
        }
    }

    /// The string at `index`, or the empty string where there is none.
    pub fn str_or_empty(&self, index: usize) -> (r: &[u8])
        ensures
            r@ == str_at(self.vals(), index as int),
    {
        match self.get_str(index) {
            Some(s) => s,
            None => {
                let e: &[u8] = &[];
                assert(e@ =~= Seq::<u8>::empty());
                e
            },
        }
    }
}

} // verus!
