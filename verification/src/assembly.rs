//! The program model: function definitions and the program that holds them.

use vstd::prelude::*;
use super::instructions::Inst;

verus! {

/// A function whose body is bytecode.
///
/// The first `args` local slots receive the arguments. Where the function
/// returns a value, slot `args` holds it at the time of the return.
#[derive(Clone)]
pub struct ManagedFuncDef {
    pub name: String,
    pub args: u16,
    pub returns: bool,
    pub default_locals: Vec<u32>,
    pub body: Vec<Inst>,
}

/// A function that the host runs, found by its name.
#[derive(Clone)]
pub struct NativeFuncDef {
    pub name: String,
    pub args: u16,
    pub returns: bool,
}

#[derive(Clone)]
pub enum FuncDef {
    Managed(ManagedFuncDef),
    Native(NativeFuncDef),
}

/// A loaded program: a table of functions and the index of the one that
/// execution starts with.
pub struct Assembly {
    pub entry: u16,
    pub name: String,
    pub functions: Vec<FuncDef>,
}

/// What a managed function is, as plain values.
pub struct ManagedFuncView {
    pub name: Seq<char>,
    pub args: u16,
    pub returns: bool,
    pub default_locals: Seq<u32>,
    pub body: Seq<Inst>,
}

/// What a native function is, as plain values.
pub struct NativeFuncView {
    pub name: Seq<char>,
    pub args: u16,
    pub returns: bool,
}

pub enum FuncView {
    Managed(ManagedFuncView),
    Native(NativeFuncView),
}

/// What a program is, as plain values.
pub struct AssemblyView {
    pub entry: u16,
    pub name: Seq<char>,
    pub functions: Seq<FuncView>,
}

impl View for ManagedFuncDef {
    type V = ManagedFuncView;

    open spec fn view(&self) -> ManagedFuncView {
        ManagedFuncView {
            name: self.name@,
            args: self.args,
            returns: self.returns,
            default_locals: self.default_locals@,
            body: self.body@,
        }
    }
}

impl View for NativeFuncDef {
    type V = NativeFuncView;

    open spec fn view(&self) -> NativeFuncView {
        NativeFuncView { name: self.name@, args: self.args, returns: self.returns }
    }
}

impl View for FuncDef {
    type V = FuncView;

    open spec fn view(&self) -> FuncView {
        match self {
            FuncDef::Managed(f) => FuncView::Managed(f@),
            FuncDef::Native(f) => FuncView::Native(f@),
        }
    }
}

impl View for Assembly {
    type V = AssemblyView;

    open spec fn view(&self) -> AssemblyView {
        AssemblyView {
            entry: self.entry,
            name: self.name@,
            functions: Seq::new(self.functions@.len(), |i: int| self.functions@[i]@),
        }
    }
}

impl ManagedFuncView {
    /// The number of local slots that the calling convention needs: one for
    /// each argument, and one more for the result where there is one.
    pub open spec fn min_locals(self) -> nat {
        if self.returns {
            self.args as nat + 1
        } else {
            self.args as nat
        }
    }

    /// The function has the local slots that the calling convention needs,
    /// every offset in its body fits a program counter, and its jumps stay
    /// within the body or point just past its end.
    pub open spec fn well_formed(self) -> bool {
        &&& self.default_locals.len() >= self.min_locals()
        &&& self.body.len() <= u32::MAX
        &&& forall|i: int|
            0 <= i < self.body.len() ==> match #[trigger] self.body[i] {
                Inst::jump(target) => target <= self.body.len(),
                Inst::beq(target) => target <= self.body.len(),
                _ => true,
            }
    }

    /// Every call in the body names one of `count` functions.
    pub open spec fn calls_within(self, count: nat) -> bool {
        forall|i: int|
            0 <= i < self.body.len() ==> match #[trigger] self.body[i] {
                Inst::call(index) => (index as nat) < count,
                _ => true,
            }
    }
}

impl FuncView {
    pub open spec fn name(self) -> Seq<char> {
        match self {
            FuncView::Managed(f) => f.name,
            FuncView::Native(f) => f.name,
        }
    }

    pub open spec fn well_formed(self, count: nat) -> bool {
        match self {
            FuncView::Managed(f) => f.well_formed() && f.calls_within(count),
            FuncView::Native(_) => true,
        }
    }
}

impl AssemblyView {
    /// Every function of the table is well formed and calls only functions
    /// of the table.
    pub open spec fn well_formed(self) -> bool {
        forall|i: int|
            0 <= i < self.functions.len() ==> (#[trigger] self.functions[i]).well_formed(
                self.functions.len(),
            )
    }

    /// The program is well formed and its entry point is a managed function
    /// of the table.
    pub open spec fn runnable(self) -> bool {
        &&& self.well_formed()
        &&& (self.entry as int) < self.functions.len()
        &&& self.functions[self.entry as int] is Managed
    }
}

impl ManagedFuncDef {
    /// Whether the function is well formed and calls only functions of a
    /// table of `count` entries.
    pub fn is_well_formed(&self, count: usize) -> (b: bool)
        ensures
            b == (self@.well_formed() && self@.calls_within(count as nat)),
    {
        let wanted: usize = self.args as usize + if self.returns {
            1
        } else {
            0
        };
        let length = self.body.len();
        if self.default_locals.len() < wanted || length > u32::MAX as usize {
            return false;
        }
        let mut i: usize = 0;
        while i < length
            invariant
                i <= length == self.body@.len(),
                forall|k: int|
                    0 <= k < i ==> match #[trigger] self.body@[k] {
                        Inst::jump(target) => target <= length,
                        Inst::beq(target) => target <= length,
                        Inst::call(index) => (index as nat) < count,
                        _ => true,
                    },
            decreases length - i,
        {
            let fits = match self.body[i] {
                Inst::jump(target) => target as usize <= length,
                Inst::beq(target) => target as usize <= length,
                Inst::call(index) => (index as usize) < count,
                _ => true,
            };
            if !fits {
                return false;
            }
            i += 1;
        }
        true
    }
}

impl Assembly {
    /// Whether the program can be run: it is well formed, and its entry
    /// point is a managed function of its table.
    pub fn is_runnable(&self) -> (b: bool)
        ensures
            b == self@.runnable(),
    {
        let count = self.functions.len();
        let mut i: usize = 0;
        while i < count
            invariant
                i <= count == self.functions@.len(),
                self@.functions.len() == count,
                forall|k: int| 0 <= k < i ==> (#[trigger] self@.functions[k]).well_formed(count as nat),
            decreases count - i,
        {
            assert(self@.functions[i as int] == self.functions@[i as int]@);
            match &self.functions[i] {
                FuncDef::Managed(function) => {
                    if !function.is_well_formed(count) {
                        return false;
                    }
                },
                FuncDef::Native(_) => {},
            }
            i += 1;
        }
        if self.entry as usize >= count {
            return false;
        }
        assert(self@.functions[self.entry as int] == self.functions@[self.entry as int]@);
        match &self.functions[self.entry as usize] {
            FuncDef::Managed(_) => true,
            FuncDef::Native(_) => false,
        }
    }

    /// The function that execution starts with.
    pub fn get_entry(&self) -> (f: &FuncDef)
        requires
            (self.entry as int) < self.functions@.len(),
        ensures
            *f == self.functions@[self.entry as int],
    {
        &self.functions[self.entry as usize]
    }
}

impl FuncDef {
    pub fn name<'a>(&'a self) -> (s: &'a str)
        ensures
            s@ == self@.name(),
    {
        match self {
            FuncDef::Managed(f) => f.name.as_str(),
            FuncDef::Native(f) => f.name.as_str(),
        }
    }

    pub fn as_managed(&self) -> (r: Option<&ManagedFuncDef>)
        ensures
            match *self {
                FuncDef::Managed(f) => r == Some(&f),
                FuncDef::Native(_) => r is None,
            },
    {
        match self {
            FuncDef::Managed(func) => Some(func),
            FuncDef::Native(_) => None,
        }
    }

    pub fn as_managed_mut(&mut self) -> (r: Option<&mut ManagedFuncDef>)
        ensures
            match *old(self) {
                FuncDef::Managed(f) => r is Some && *r->0 == f && *final(self)
                    == FuncDef::Managed(*final(r->0)),
                FuncDef::Native(_) => r is None && *final(self) == *old(self),
            },
    {
        match self {
            FuncDef::Managed(func) => Some(func),
            FuncDef::Native(_) => None,
        }
    }
}

} // verus!
