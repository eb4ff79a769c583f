//! The symbol table: a stack of scope frames that map names to stack slots.

use vstd::prelude::*;
use crate::error::{duplicate_binding, undefined_variable, CompilerError, ErrorKind};
use crate::ir::ScalarType;

verus! {

/// The storage a name is bound to: a stack slot of the function being
/// compiled, its type, and whether the name may be assigned to.
#[derive(Clone, Copy, Debug, PartialEq, Eq, Structural)]
pub struct Slot {
    pub index: usize,
    pub ty: ScalarType,
    pub mutable: bool,
}

/// One binding of a frame.
#[derive(Debug)]
pub struct Entry {
    pub name: String,
    pub slot: Slot,
}

/// One scope: the names it binds.
pub type Frame = Map<Seq<char>, Slot>;

/// A stack of scopes, innermost last. It always holds at least the frame
/// of the function's outermost scope.
#[derive(Debug)]
pub struct SymbolTable {
    frames: Vec<Vec<Entry>>,
}

/// The frame that a list of bindings stands for.
pub open spec fn frame_of(entries: Seq<Entry>) -> Frame
    decreases entries.len(),
{
    if entries.len() == 0 {
        Map::empty()
    } else {
        frame_of(entries.drop_last()).insert(entries.last().name@, entries.last().slot)
    }
}

/// The slot `name` is bound to in the innermost scope that binds it.
pub open spec fn lookup(scopes: Seq<Frame>, name: Seq<char>) -> Option<Slot>
    decreases scopes.len(),
{
    if scopes.len() == 0 {
        None
    } else if scopes.last().dom().contains(name) {
        Some(scopes.last()[name])
    } else {
        lookup(scopes.drop_last(), name)
    }
}

/// The scopes with `name` bound to `slot` in the innermost one.
pub open spec fn declared(scopes: Seq<Frame>, name: Seq<char>, slot: Slot) -> Seq<Frame> {
    scopes.update(scopes.len() - 1, scopes.last().insert(name, slot))
}

impl View for SymbolTable {
    type V = Seq<Frame>;

    closed spec fn view(&self) -> Seq<Frame> {
        Seq::new(self.frames@.len(), |i: int| frame_of(self.frames@[i]@))
    }
}

/// The slot that a list of bindings binds `name` to, the last one where
/// there are several.
fn find_in(entries: &Vec<Entry>, name: &String) -> (r: Option<Slot>)
    ensures
        r == (if frame_of(entries@).dom().contains(name@) {
            Some(frame_of(entries@)[name@])
        } else {
            None
        }),
{
    let mut j = entries.len();
    assert(entries@.take(j as int) =~= entries@);
    while j > 0
        invariant
            j <= entries.len(),
            frame_of(entries@).dom().contains(name@) == frame_of(entries@.take(j as int)).dom().contains(
                name@,
            ),
            frame_of(entries@).dom().contains(name@) ==> frame_of(entries@)[name@] == frame_of(
                entries@.take(j as int),
            )[name@],
        decreases j,
    {
        j -= 1;
        assert(entries@.take(j + 1).drop_last() =~= entries@.take(j as int));
        assert(entries@.take(j + 1).last() == entries@[j as int]);
        if entries[j].name == *name {
            return Some(entries[j].slot);
        }
    }
    None
}

impl SymbolTable {
    /// A table with the outermost scope open and nothing bound.
    pub fn new() -> (t: SymbolTable)
        ensures
            t@ == seq![Map::<Seq<char>, Slot>::empty()],
    {
        let mut frames: Vec<Vec<Entry>> = Vec::new();
        frames.push(Vec::new());
        let t = SymbolTable { frames };
        assert(t@ =~= seq![Map::<Seq<char>, Slot>::empty()]);
        t
    }

    /// Opens a scope inside the current one.
    pub fn push_scope(&mut self)
        ensures
            final(self)@ == old(self)@.push(Map::empty()),
    {
        self.frames.push(Vec::new());
        assert(self@ =~= old(self)@.push(Map::empty()));
    }

    /// Closes the innermost scope and forgets its bindings; the slots they
    /// named stay allocated. The outermost scope is never closed: the
    /// result says whether a scope was.
    pub fn pop_scope(&mut self) -> (popped: bool)
        ensures
            popped == (old(self)@.len() > 1),
            final(self)@ == (if popped {
                old(self)@.drop_last()
            } else {
                old(self)@
            }),
    {
        if self.frames.len() > 1 {
            self.frames.pop();
            assert(self@ =~= old(self)@.drop_last());
            true
        } else {
            false
        }
    }

    /// Binds `name` to `slot` in the innermost scope, unless that scope
    /// binds it already.
    pub fn declare(&mut self, name: String, slot: Slot) -> (r: Result<(), CompilerError>)
        requires
            old(self)@.len() >= 1,
        ensures
            match r {
                Ok(()) => !old(self)@.last().dom().contains(name@) && final(self)@ == declared(
                    old(self)@,
                    name@,
                    slot,
                ),
                Err(e) => old(self)@.last().dom().contains(name@) && e@ == duplicate_binding(name@)
                    && final(self)@ == old(self)@,
            },
    {
        let top = self.frames.len() - 1;
        if find_in(&self.frames[top], &name).is_some() {
            return Err(CompilerError::about(ErrorKind::DuplicateBinding, &name));
        }
        let ghost bound = name@;
        self.frames[top].push(Entry { name, slot });
        proof {
            assert(self.frames@[top as int]@.drop_last() =~= old(self).frames@[top as int]@);
            assert(self@ =~= declared(old(self)@, bound, slot));
        }
        Ok(())
    }

    /// The slot `name` is bound to, searching from the innermost scope
    /// outwards.
    pub fn resolve(&self, name: &String) -> (r: Result<Slot, CompilerError>)
        ensures
            match r {
                Ok(slot) => lookup(self@, name@) == Some(slot),
                Err(e) => lookup(self@, name@) is None && e@ == undefined_variable(name@),
            },
    {
        let mut k = self.frames.len();
        assert(self@.take(k as int) =~= self@);
        while k > 0
            invariant
                k <= self.frames.len(),
                lookup(self@, name@) == lookup(self@.take(k as int), name@),
            decreases k,
        {
            k -= 1;
            assert(self@.take(k + 1).drop_last() =~= self@.take(k as int));
            assert(self@.take(k + 1).last() == frame_of(self.frames@[k as int]@));
            match find_in(&self.frames[k], name) {
                Some(slot) => {
                    return Ok(slot);
                },
                None => {},
            }
        }
        Err(CompilerError::about(ErrorKind::UndefinedVariable, name))
    }

    /// How many scopes are open.
    pub fn depth(&self) -> (n: usize)
        ensures
            n == self@.len(),
    {
        self.frames.len()
    }
}

} // verus!
