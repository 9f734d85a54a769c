//! A collection of renderers of which exactly one is active at a time.
use vstd::prelude::*;

verus! {

/// Manages a collection of renderers where only one is active at a time.
///
/// All renderers are kept ready, but only the active one is drawn.
pub struct RendererPool<R> {
    renderers: Vec<R>,
    active_index: usize,
}

impl<R> RendererPool<R> {
    /// The active index names a renderer whenever there is one.
    #[verifier::type_invariant]
    spec fn index_in_range(self) -> bool {
        self.active_index == 0 || self.active_index < self.renderers.len()
    }

    /// The active index names a renderer whenever there is one. Every pool
    /// keeps this: it is the pool's type invariant, and every operation
    /// states it of the pool it leaves.
    pub open spec fn valid_index(self) -> bool {
        self.spec_active_index() == 0 || self.spec_active_index() < self.spec_renderers().len()
    }

    pub closed spec fn spec_renderers(self) -> Seq<R> {
        self.renderers@
    }

    pub closed spec fn spec_active_index(self) -> usize {
        self.active_index
    }

    /// Creates a new empty renderer pool.
    pub fn new() -> (r: Self)
        ensures
            r.spec_renderers().len() == 0,
            r.spec_active_index() == 0,
            r.valid_index(),
    {
        RendererPool { renderers: Vec::new(), active_index: 0 }
    }

    /// Adds a renderer to the pool. The active renderer stays the same; the
    /// first renderer added becomes the active one.
    pub fn add_renderer(&mut self, renderer: R)
        ensures
            final(self).spec_renderers() == old(self).spec_renderers().push(renderer),
            final(self).spec_active_index() == old(self).spec_active_index(),
            old(self).spec_renderers().len() == 0 ==> final(self).spec_active_index() == 0,
            old(self).valid_index(),
            final(self).valid_index(),
    {
        let mut pool = RendererPool::new();
        std::mem::swap(&mut pool, self);
        proof {
            use_type_invariant(&pool);
        }
        let RendererPool { mut renderers, active_index } = pool;
        renderers.push(renderer);
        *self = RendererPool { renderers, active_index };
    }

    /// The active renderer, to draw with or to change. The pool must not be
    /// empty: indexing an empty pool panics.
    pub fn active(&mut self) -> (r: &mut R)
        requires
            old(self).spec_renderers().len() > 0,
        ensures
            old(self).spec_active_index() < old(self).spec_renderers().len(),
            *r == old(self).spec_renderers()[old(self).spec_active_index() as int],
            final(self).spec_renderers() == old(self).spec_renderers().update(
                old(self).spec_active_index() as int,
                *final(r),
            ),
            final(self).spec_active_index() == old(self).spec_active_index(),
            final(self).valid_index(),
    {
        proof {
            use_type_invariant(&*self);
        }
        &mut self.renderers[self.active_index]
    }

    /// Makes the renderer at `index` the active one. Returns `true` if the
    /// switch was made, `false` (changing nothing) if `index` is out of bounds.
    pub fn switch_active(&mut self, index: usize) -> (r: bool)
        ensures
            r == (index < old(self).spec_renderers().len()),
            final(self).spec_renderers() == old(self).spec_renderers(),
            final(self).spec_active_index() == if r {
                index
            } else {
                old(self).spec_active_index()
            },
            final(self).valid_index(),
    {
        proof {
            use_type_invariant(&*self);
        }
        if index < self.renderers.len() {
            self.active_index = index;
            true
        } else {
            false
        }
    }

    /// Index of the active renderer.
    pub fn active_index(&self) -> (r: usize)
        ensures
            r == self.spec_active_index(),
            self.valid_index(),
    {
        proof {
            use_type_invariant(self);
        }
        self.active_index
    }

    /// Number of renderers in the pool.
    pub fn len(&self) -> (r: usize)
        ensures
            r == self.spec_renderers().len(),
            self.valid_index(),
    {
        proof {
            use_type_invariant(self);
        }
        self.renderers.len()
    }

    /// Whether the pool holds no renderer.
    pub fn is_empty(&self) -> (r: bool)
        ensures
            r == (self.spec_renderers().len() == 0),
            self.valid_index(),
    {
        proof {
            use_type_invariant(self);
        }
        self.renderers.len() == 0
    }
}

impl<R> Default for RendererPool<R> {
    fn default() -> (r: Self)
        ensures
            r.spec_renderers().len() == 0,
            r.spec_active_index() == 0,
            r.valid_index(),
    {
        Self::new()
    }
}

} // verus!
