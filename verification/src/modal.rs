//! Stack of modal windows, where the last layer is the top-level window.
//!
//! There is no reliable way to tell that a window was closed, so the layers
//! registered during the previous frame are remembered and the stack drops the
//! layers that were not registered again.
use smallvec::SmallVec;
use vstd::prelude::*;

verus! {

/// Identifier of a UI layer: its drawing order and its unique id.
#[derive(Clone, Copy, PartialEq, Eq, Structural, Debug)]
pub struct LayerKey {
    pub order: u8,
    pub id: u64,
}

/// A `SmallVec` of layer keys with inline room for three of them.
#[verifier::external_body]
pub struct LayerStack {
    items: SmallVec<[LayerKey; 3]>,
}

/// The layers held by a [`LayerStack`], in order.
pub uninterp spec fn layer_items(v: LayerStack) -> Seq<LayerKey>;

/// `SmallVec::new`: an empty vector.
#[verifier::external_body]
fn layers_new() -> (v: LayerStack)
    ensures
        layer_items(v) == Seq::<LayerKey>::empty(),
{
    LayerStack { items: SmallVec::new() }
}

/// `SmallVec::len`: the number of items held.
#[verifier::external_body]
fn layers_len(v: &LayerStack) -> (n: usize)
    ensures
        n == layer_items(*v).len(),
{
    v.items.len()
}

/// `SmallVec` indexing: the item at `index`, which is in bounds.
#[verifier::external_body]
fn layers_get(v: &LayerStack, index: usize) -> (item: LayerKey)
    requires
        index < layer_items(*v).len(),
    ensures
        item == layer_items(*v)[index as int],
{
    v.items[index]
}

/// The most layers a stack holds: far below the length at which growing a
/// `SmallVec` of layer keys overflows its capacity computation.
pub const MAX_LAYERS: usize = 0x100_0000;

/// `SmallVec::push`: appends an item. Growing panics when the new capacity
/// overflows, which the bound on the length rules out; an allocation failure
/// aborts the process and is not stated.
#[verifier::external_body]
fn layers_push(v: &mut LayerStack, item: LayerKey)
    requires
        layer_items(*old(v)).len() < MAX_LAYERS,
    ensures
        layer_items(*final(v)) == layer_items(*old(v)).push(item),
{
    v.items.push(item)
}

/// `SmallVec::clear`: removes every item.
#[verifier::external_body]
fn layers_clear(v: &mut LayerStack)
    ensures
        layer_items(*final(v)) == Seq::<LayerKey>::empty(),
{
    v.items.clear()
}

/// `SmallVec::retain` with the predicate "is held by `keep`": keeps, in their
/// order, exactly the items for which the predicate holds.
#[verifier::external_body]
fn layers_retain_held_by(v: &mut LayerStack, keep: &LayerStack)
    ensures
        layer_items(*final(v)) == layer_items(*old(v)).filter(
            |x: LayerKey| layer_items(*keep).contains(x),
        ),
{
    v.items.retain(|item| layers_contain(keep, item))
}

/// Returns `true` if `v` holds `key`.
pub fn layers_contain(v: &LayerStack, key: &LayerKey) -> (b: bool)
    ensures
        b == layer_items(*v).contains(*key),
{
    let n = layers_len(v);
    let mut i: usize = 0;
    while i < n
        invariant
            n == layer_items(*v).len(),
            i <= n,
            forall|j: int| 0 <= j < i ==> layer_items(*v)[j] != *key,
        decreases n - i,
    {
        if layers_get(v, i) == *key {
            return true;
        }
        i = i + 1;
    }
    false
}

/// No two layers of `s` share an id.
pub open spec fn ids_unique(s: Seq<LayerKey>) -> bool {
    forall|i: int, j: int| 0 <= i < j < s.len() ==> s[i].id != s[j].id
}

/// The first position of a layer with `id` in `s`, if any.
pub open spec fn id_position(s: Seq<LayerKey>, id: u64) -> Option<int>
    decreases s.len(),
{
    if s.len() == 0 {
        None
    } else {
        match id_position(s.drop_last(), id) {
            Some(p) => Some(p),
            None => if s.last().id == id { Some(s.len() - 1) } else { None },
        }
    }
}

proof fn lemma_id_position(s: Seq<LayerKey>, id: u64)
    ensures
        match id_position(s, id) {
            Some(p) => 0 <= p < s.len() && s[p].id == id && forall|j: int|
                0 <= j < p ==> s[j].id != id,
            None => forall|j: int| 0 <= j < s.len() ==> s[j].id != id,
        },
    decreases s.len(),
{
    if s.len() > 0 {
        let rest = s.drop_last();
        lemma_id_position(rest, id);
        assert forall|j: int| 0 <= j < rest.len() implies rest[j] == s[j] by {}
    }
}

/// Filtering a stack whose ids are unique leaves them unique.
pub proof fn lemma_filter_keeps_ids_unique(s: Seq<LayerKey>, pred: spec_fn(LayerKey) -> bool)
    requires
        ids_unique(s),
    ensures
        ids_unique(s.filter(pred)),
    decreases s.len(),
{
    reveal(Seq::filter);
    if s.len() > 0 {
        let rest = s.drop_last();
        lemma_filter_keeps_ids_unique(rest, pred);
        let f = rest.filter(pred);
        if pred(s.last()) {
            assert forall|i: int| 0 <= i < f.len() implies f[i].id != s.last().id by {
                rest.lemma_filter_contains_rev(pred, f[i]);
                let k = choose|k: int| 0 <= k < rest.len() && rest[k] == f[i];
                assert(s[k] == rest[k]);
            }
            assert(s.filter(pred) == f.push(s.last()));
        }
    }
}

/// Modal layer ids of the previous frame and the stack of open modal layers.
pub struct ModalIds {
    /// Layers registered since the last [`ModalIds::retain_registered`], in any order.
    registered_ids: LayerStack,
    /// Modal layers, the top-level layer last. Order is kept between frames.
    stack: LayerStack,
}

impl ModalIds {
    pub closed spec fn registered_view(self) -> Seq<LayerKey> {
        layer_items(self.registered_ids)
    }

    pub closed spec fn stack_view(self) -> Seq<LayerKey> {
        layer_items(self.stack)
    }

    /// No modal layer registered, none open.
    pub fn new() -> (m: Self)
        ensures
            m.registered_view() == Seq::<LayerKey>::empty(),
            m.stack_view() == Seq::<LayerKey>::empty(),
    {
        ModalIds { registered_ids: layers_new(), stack: layers_new() }
    }

    /// The number of layers registered this frame, and the number of open modal layers.
    pub fn lens(&self) -> (r: (usize, usize))
        ensures
            r.0 == self.registered_view().len(),
            r.1 == self.stack_view().len(),
    {
        (layers_len(&self.registered_ids), layers_len(&self.stack))
    }

    /// Registers a layer as a modal dialog drawn this frame and returns `true` if
    /// it is the top-level modal dialog.
    ///
    /// A layer whose id is already on the stack keeps its place; a new one goes on top.
    pub fn register_modal(&mut self, new_layer: LayerKey) -> (top: bool)
        requires
            old(self).registered_view().len() < MAX_LAYERS,
            old(self).stack_view().len() < MAX_LAYERS,
        ensures
            final(self).registered_view() == old(self).registered_view().push(new_layer),
            match id_position(old(self).stack_view(), new_layer.id) {
                Some(p) => final(self).stack_view() == old(self).stack_view() && top == (p
                    == old(self).stack_view().len() - 1),
                None => final(self).stack_view() == old(self).stack_view().push(new_layer) && top,
            },
            ids_unique(old(self).stack_view()) ==> ids_unique(final(self).stack_view()),
            ids_unique(old(self).stack_view()) ==> (top <==> final(self).stack_view().last().id
                == new_layer.id),
    {
        proof {
            lemma_id_position(self.stack_view(), new_layer.id);
        }
        layers_push(&mut self.registered_ids, new_layer);
        let n = layers_len(&self.stack);
        let mut i: usize = 0;
        while i < n
            invariant
                n == self.stack_view().len(),
                self.stack_view() == old(self).stack_view(),
                self.registered_view() == old(self).registered_view().push(new_layer),
                i <= n,
                forall|j: int| 0 <= j < i ==> self.stack_view()[j].id != new_layer.id,
            decreases n - i,
        {
            if layers_get(&self.stack, i).id == new_layer.id {
                proof {
                    lemma_id_position(self.stack_view(), new_layer.id);
                }
                return i == n - 1;
            }
            i = i + 1;
        }
        layers_push(&mut self.stack, new_layer);
        true
    }

    /// Removes from the stack the layers that were not registered, clears the
    /// register and returns the top layer, if there is one.
    pub fn retain_registered(&mut self) -> (top: Option<LayerKey>)
        ensures
            final(self).stack_view() == old(self).stack_view().filter(
                |x: LayerKey| old(self).registered_view().contains(x),
            ),
            final(self).registered_view() == Seq::<LayerKey>::empty(),
            top == (if final(self).stack_view().len() == 0 {
                None
            } else {
                Some(final(self).stack_view().last())
            }),
            ids_unique(old(self).stack_view()) ==> ids_unique(final(self).stack_view()),
    {
        layers_retain_held_by(&mut self.stack, &self.registered_ids);
        proof {
            if ids_unique(old(self).stack_view()) {
                lemma_filter_keeps_ids_unique(
                    old(self).stack_view(),
                    |x: LayerKey| old(self).registered_view().contains(x),
                );
            }
        }
        layers_clear(&mut self.registered_ids);
        let n = layers_len(&self.stack);
        if n == 0 {
            None
        } else {
            Some(layers_get(&self.stack, n - 1))
        }
    }

    /// Returns `true` if there are no active modal layers.
    pub fn is_empty(&self) -> (b: bool)
        ensures
            b == (self.stack_view().len() == 0),
    {
        layers_len(&self.stack) == 0
    }
}

} // verus!
