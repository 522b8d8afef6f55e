//! Scoped arena management for complex lifetime scenarios.
//!
//! These helpers create the arenas a pass needs, hand them to a
//! closure, and let them be torn down when the closure is done, so
//! the scope of every arena is a function scope.

use vstd::prelude::*;

use crate::arena::{Arena, DroplessArena, TypedArena};
use crate::layout::Global;

verus! {

/// The chunk capacity of the shared byte arena these helpers create.
pub const SCOPED_BYTE_CAP: usize = 4096;

/// The chunk capacity of the typed arena [`with_arenas`] creates.
pub const SCOPED_TYPED_CAP: usize = 1024;

/// Builder holding the arenas shared across one scoped run.
pub struct ArenaBuilder {
    dropless: DroplessArena<Global>,
}

impl ArenaBuilder {
    /// The shared byte arena.
    pub closed spec fn dropless_arena(&self) -> DroplessArena<Global> {
        self.dropless
    }

    /// The builder's arena is well formed.
    pub open spec fn wf(&self) -> bool {
        self.dropless_arena().wf()
    }

    fn new() -> (r: Self)
        ensures
            r.wf(),
            r.dropless_arena().count() == 0,
            r.dropless_arena().cap() == SCOPED_BYTE_CAP,
    {
        ArenaBuilder { dropless: Arena::new(SCOPED_BYTE_CAP) }
    }

    /// Get access to the shared dropless arena.
    pub fn dropless(&mut self) -> (r: &mut DroplessArena<Global>)
        ensures
            *r == old(self).dropless_arena(),
            final(self).dropless_arena() == *final(r),
    {
        &mut self.dropless
    }

    /// Create a fresh typed arena of the given chunk capacity and run
    /// a closure with it; the arena is torn down when the closure is
    /// done.
    pub fn with_typed_arena<T, R, F: FnOnce(TypedArena<T, Global>) -> R>(
        &self,
        chunk_size: usize,
        f: F,
    ) -> (r: R)
        requires
            forall|a: TypedArena<T, Global>|
                a.wf() && a.count() == 0 && a.cap() == chunk_size ==> #[trigger] call_requires(
                    f,
                    (a,),
                ),
        ensures
            exists|a: TypedArena<T, Global>| #[trigger] call_ensures(f, (a,), r),
    {
        let arena = TypedArena::<T, Global>::new(chunk_size);
        f(arena)
    }
}

/// Execute a closure with properly scoped arenas: a shared byte arena
/// and a typed arena, both created here and torn down, in order, when
/// the closure is done.
pub fn with_arenas<R, F: FnOnce(DroplessArena<Global>, TypedArena<(), Global>) -> R>(f: F) -> (r:
    R)
    requires
        forall|d: DroplessArena<Global>, t: TypedArena<(), Global>|
            {
                &&& d.wf()
                &&& d.count() == 0
                &&& d.cap() == SCOPED_BYTE_CAP
                &&& t.wf()
                &&& t.count() == 0
                &&& t.cap() == SCOPED_TYPED_CAP
            } ==> #[trigger] call_requires(f, (d, t)),
    ensures
        exists|dt: (DroplessArena<Global>, TypedArena<(), Global>)|
            #[trigger] call_ensures(f, dt, r),
{
    let dropless = Arena::new(SCOPED_BYTE_CAP);
    let typed = TypedArena::<(), Global>::new(SCOPED_TYPED_CAP);
    f(dropless, typed)
}

/// A more flexible scoped executor: the closure receives an
/// [`ArenaBuilder`] and can create further typed arenas as needed.
pub fn scoped_arenas<R, F: FnOnce(ArenaBuilder) -> R>(f: F) -> (r: R)
    requires
        forall|b: ArenaBuilder|
            {
                &&& b.wf()
                &&& b.dropless_arena().count() == 0
                &&& b.dropless_arena().cap() == SCOPED_BYTE_CAP
            } ==> #[trigger] call_requires(f, (b,)),
    ensures
        exists|b: ArenaBuilder| #[trigger] call_ensures(f, (b,), r),
{
    let builder = ArenaBuilder::new();
    f(builder)
}

} // verus!
