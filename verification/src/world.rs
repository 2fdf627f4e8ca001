//! The static world and the resolution of collisions against it.
//!
//! Entities are indices into two tables, one of colliders and one of
//! transforms; an entity takes part in collisions while it has both. The
//! static colliders are indexed once. In every tick each moving collider is
//! tested against the index, and each pair that the index yields is handed
//! out for an exact contact test, whose outcome moves the collider.

use vstd::prelude::*;
use crate::aabb::Aabb;
use crate::contact::Contact;
use crate::isometry::LocalTransform;
use crate::shape::{Collider, ColliderLayer, CollisionError};
use crate::tree::{
    distinct_ids,
    hits,
    is_hit,
    lemma_distinct_ids_reordered,
    lemma_hits_exact,
    lemma_hits_no_duplicates,
    median_split,
    BoundingVolumeTree,
    Leaf,
};

verus! {

/// The index of the static colliders of a scene, as they stood when it was
/// constructed.
///
/// Its view is the sequence of the indexed leaves: for each static collider
/// its entity and its bounding box.
pub struct StaticWorld {
    bvt: BoundingVolumeTree,
}

/// A moving entity and a static entity whose bounding boxes meet.
#[derive(Clone, Copy, Debug, PartialEq, Eq, Structural)]
pub struct Pair {
    pub object: usize,
    pub fixed: usize,
}

/// Every stored transform lies in the world.
pub open spec fn transforms_wf(locals: Seq<Option<LocalTransform>>) -> bool {
    forall|i: int| 0 <= i < locals.len() && locals[i] is Some ==> (#[trigger] locals[i]).unwrap().wf()
}

/// The entity `id` has a collider and a transform.
pub open spec fn is_body(
    colliders: Seq<Option<Collider>>,
    locals: Seq<Option<LocalTransform>>,
    id: int,
) -> bool {
    &&& 0 <= id < colliders.len()
    &&& id < locals.len()
    &&& colliders[id] is Some
    &&& locals[id] is Some
}

/// The entity `id` has a collider on `layer` and a transform.
pub open spec fn is_body_on(
    colliders: Seq<Option<Collider>>,
    locals: Seq<Option<LocalTransform>>,
    layer: ColliderLayer,
    id: int,
) -> bool {
    is_body(colliders, locals, id) && colliders[id].unwrap().spec_layer() == layer
}

/// The bounding box of the entity `id`, where it stands.
pub open spec fn body_aabb(
    colliders: Seq<Option<Collider>>,
    locals: Seq<Option<LocalTransform>>,
    id: int,
) -> Aabb {
    colliders[id].unwrap().spec_aabb(locals[id].unwrap().isometry())
}

/// The leaves of the first `n` entities that are bodies on `layer`, in the
/// order of the entities.
pub open spec fn layer_leaves(
    colliders: Seq<Option<Collider>>,
    locals: Seq<Option<LocalTransform>>,
    layer: ColliderLayer,
    n: nat,
) -> Seq<Leaf>
    decreases n,
{
    if n == 0 {
        Seq::empty()
    } else {
        let rest = layer_leaves(colliders, locals, layer, (n - 1) as nat);
        if is_body_on(colliders, locals, layer, n - 1) {
            rest.push(Leaf { id: (n - 1) as usize, aabb: body_aabb(colliders, locals, n - 1) })
        } else {
            rest
        }
    }
}

/// The leaves of a layer carry the ids of their entities, each once.
pub proof fn lemma_layer_leaves_distinct(
    colliders: Seq<Option<Collider>>,
    locals: Seq<Option<LocalTransform>>,
    layer: ColliderLayer,
    n: nat,
)
    requires
        n <= usize::MAX,
    ensures
        distinct_ids(layer_leaves(colliders, locals, layer, n)),
        forall|i: int|
            0 <= i < layer_leaves(colliders, locals, layer, n).len() ==> (#[trigger] layer_leaves(
                colliders,
                locals,
                layer,
                n,
            )[i]).id < n,
    decreases n,
{
    if n > 0 {
        lemma_layer_leaves_distinct(colliders, locals, layer, (n - 1) as nat);
    }
}

/// The pairs of one moving entity with each of `fixed`, in that order.
pub open spec fn pairs_of(object: usize, fixed: Seq<usize>) -> Seq<Pair> {
    Seq::new(fixed.len(), |k: int| Pair { object, fixed: fixed[k] })
}

/// The candidate pairs of the first `n` entities: for each moving body
/// among them, in the order of the entities, its pairs with the indexed
/// leaves whose box meets its own.
pub open spec fn candidates(
    indexed: Seq<Leaf>,
    colliders: Seq<Option<Collider>>,
    locals: Seq<Option<LocalTransform>>,
    n: nat,
) -> Seq<Pair>
    decreases n,
{
    if n == 0 {
        Seq::empty()
    } else {
        let rest = candidates(indexed, colliders, locals, (n - 1) as nat);
        if is_body_on(colliders, locals, ColliderLayer::Object, n - 1) {
            rest + pairs_of((n - 1) as usize, hits(indexed, body_aabb(colliders, locals, n - 1)))
        } else {
            rest
        }
    }
}

/// `pair` is a moving body with an indexed leaf whose box meets its own.
pub open spec fn is_candidate(
    indexed: Seq<Leaf>,
    colliders: Seq<Option<Collider>>,
    locals: Seq<Option<LocalTransform>>,
    pair: Pair,
) -> bool {
    &&& is_body_on(colliders, locals, ColliderLayer::Object, pair.object as int)
    &&& is_hit(indexed, body_aabb(colliders, locals, pair.object as int), pair.fixed)
}

/// The candidate pairs are the moving bodies with the indexed leaves that
/// their boxes meet, and nothing else: no pair has a static body, or an
/// entity without collider or transform, in the place of the moving one.
pub proof fn lemma_candidates_exact(
    indexed: Seq<Leaf>,
    colliders: Seq<Option<Collider>>,
    locals: Seq<Option<LocalTransform>>,
    n: nat,
    pair: Pair,
)
    requires
        n <= usize::MAX,
    ensures
        candidates(indexed, colliders, locals, n).contains(pair) <==> (pair.object < n
            && is_candidate(indexed, colliders, locals, pair)),
    decreases n,
{
    if n > 0 {
        let rest = candidates(indexed, colliders, locals, (n - 1) as nat);
        lemma_candidates_exact(indexed, colliders, locals, (n - 1) as nat, pair);
        if is_body_on(colliders, locals, ColliderLayer::Object, n - 1) {
            let found = hits(indexed, body_aabb(colliders, locals, n - 1));
            let added = pairs_of((n - 1) as usize, found);
            let all = rest + added;
            lemma_hits_exact(indexed, body_aabb(colliders, locals, n - 1), pair.fixed);
            if all.contains(pair) {
                let k = choose|k: int| 0 <= k < all.len() && all[k] == pair;
                if k < rest.len() {
                    assert(rest[k] == pair);
                } else {
                    assert(added[k - rest.len()] == pair);
                    assert(found[k - rest.len()] == pair.fixed);
                }
            }
            if pair.object < n && is_candidate(indexed, colliders, locals, pair) {
                if pair.object == n - 1 {
                    let k = choose|k: int| 0 <= k < found.len() && found[k] == pair.fixed;
                    assert(all[rest.len() + k] == added[k]);
                    assert(added[k] == pair);
                } else {
                    let k = choose|k: int| 0 <= k < rest.len() && rest[k] == pair;
                    assert(all[k] == pair);
                }
            }
        }
    }
}

/// Why the pair cannot be tested for a contact, if it cannot: one of its
/// entities has lost its collider or its transform, or no contact can be
/// computed between the two kinds of shape.
pub open spec fn obstacle(
    colliders: Seq<Option<Collider>>,
    locals: Seq<Option<LocalTransform>>,
    pair: Pair,
) -> Option<CollisionError> {
    if !is_body(colliders, locals, pair.object as int) || !is_body(
        colliders,
        locals,
        pair.fixed as int,
    ) {
        Some(CollisionError::MissingComponent)
    } else if !colliders[pair.object as int].unwrap().spec_shape().spec_pairs_with(
        colliders[pair.fixed as int].unwrap().spec_shape(),
    ) {
        Some(CollisionError::UnsupportedShapePair)
    } else {
        None
    }
}

/// The transform `local` after the contact `c` has been resolved: moved
/// against the normal by the depth, turned as before, and marked as moved.
pub open spec fn pushed(local: LocalTransform, c: Contact) -> LocalTransform {
    LocalTransform {
        translation: c.spec_resolve(local.translation),
        rotation: local.rotation,
        dirty: true,
    }
}

/// The transforms after the exact test of `pair` has yielded `contact`:
/// where there is a contact and nothing stands against the test, the moving
/// entity of the pair is pushed out; in every other case nothing changes.
pub open spec fn respond(
    colliders: Seq<Option<Collider>>,
    locals: Seq<Option<LocalTransform>>,
    pair: Pair,
    contact: Option<Contact>,
) -> Seq<Option<LocalTransform>> {
    match contact {
        Some(c) => if obstacle(colliders, locals, pair) is None {
            locals.update(pair.object as int, Some(pushed(locals[pair.object as int].unwrap(), c)))
        } else {
            locals
        },
        None => locals,
    }
}

/// The contact can be applied to the pair: its normal is no longer than
/// one, its depth is in range, and it leaves the moving entity in the world.
pub open spec fn admissible(
    colliders: Seq<Option<Collider>>,
    locals: Seq<Option<LocalTransform>>,
    pair: Pair,
    contact: Option<Contact>,
) -> bool {
    contact matches Some(c) ==> {
        &&& c.wf()
        &&& obstacle(colliders, locals, pair) is None ==> c.spec_fits(
            locals[pair.object as int].unwrap().translation,
        )
    }
}

/// The transforms after the first `n` of `pairs` have been resolved in
/// their order, the test of `pairs[k]` having yielded `contacts[k]`. Each
/// pair is resolved on the transforms that the pairs before it have left.
pub open spec fn resolved(
    colliders: Seq<Option<Collider>>,
    locals: Seq<Option<LocalTransform>>,
    pairs: Seq<Pair>,
    contacts: Seq<Option<Contact>>,
    n: nat,
) -> Seq<Option<LocalTransform>>
    decreases n,
{
    if n == 0 {
        locals
    } else {
        respond(
            colliders,
            resolved(colliders, locals, pairs, contacts, (n - 1) as nat),
            pairs[n - 1],
            contacts[n - 1],
        )
    }
}

/// Resolution keeps the number of entities, and keeps every transform in
/// the world if every contact can be applied where it is applied.
pub proof fn lemma_respond_keeps(
    colliders: Seq<Option<Collider>>,
    locals: Seq<Option<LocalTransform>>,
    pair: Pair,
    contact: Option<Contact>,
)
    ensures
        respond(colliders, locals, pair, contact).len() == locals.len(),
        forall|id: int|
            0 <= id < locals.len() ==> (#[trigger] respond(colliders, locals, pair, contact)[id]
                is Some <==> locals[id] is Some),
        forall|id: int|
            0 <= id < locals.len() && id != pair.object ==> #[trigger] respond(
                colliders,
                locals,
                pair,
                contact,
            )[id] == locals[id],
        transforms_wf(locals) && admissible(colliders, locals, pair, contact) ==> transforms_wf(
            respond(colliders, locals, pair, contact),
        ),
{
}

/// A pass that finds no contact moves nothing: where every exact test has
/// come out without a contact, the transforms are as they were.
pub proof fn lemma_no_contact_no_displacement(
    colliders: Seq<Option<Collider>>,
    locals: Seq<Option<LocalTransform>>,
    pairs: Seq<Pair>,
    contacts: Seq<Option<Contact>>,
    n: nat,
)
    requires
        forall|k: int| 0 <= k < n ==> contacts[k] is None,
    ensures
        resolved(colliders, locals, pairs, contacts, n) == locals,
    decreases n,
{
    if n > 0 {
        lemma_no_contact_no_displacement(colliders, locals, pairs, contacts, (n - 1) as nat);
    }
}

/// A pass moves no entity but the moving ones of its pairs.
pub proof fn lemma_only_paired_objects_move(
    colliders: Seq<Option<Collider>>,
    locals: Seq<Option<LocalTransform>>,
    pairs: Seq<Pair>,
    contacts: Seq<Option<Contact>>,
    n: nat,
    id: int,
)
    requires
        0 <= id < locals.len(),
        forall|k: int| 0 <= k < n ==> (#[trigger] pairs[k]).object != id,
    ensures
        resolved(colliders, locals, pairs, contacts, n).len() == locals.len(),
        resolved(colliders, locals, pairs, contacts, n)[id] == locals[id],
    decreases n,
{
    if n > 0 {
        let before = resolved(colliders, locals, pairs, contacts, (n - 1) as nat);
        lemma_only_paired_objects_move(colliders, locals, pairs, contacts, (n - 1) as nat, id);
        lemma_respond_keeps(colliders, before, pairs[n - 1], contacts[n - 1]);
        assert(pairs[n - 1].object != id);
    }
}

/// Nothing but a moving body is ever displaced: whatever the exact tests of
/// a tick's candidate pairs yield, an entity that is not a body on the
/// object layer keeps its transform. Two static colliders that overlap are
/// never a pair, and neither of them moves.
pub proof fn lemma_statics_stay(
    indexed: Seq<Leaf>,
    colliders: Seq<Option<Collider>>,
    locals: Seq<Option<LocalTransform>>,
    contacts: Seq<Option<Contact>>,
    id: int,
)
    requires
        colliders.len() <= usize::MAX,
        0 <= id < locals.len(),
        !is_body_on(colliders, locals, ColliderLayer::Object, id),
    ensures
        ({
            let pairs = candidates(indexed, colliders, locals, colliders.len());
            resolved(colliders, locals, pairs, contacts, pairs.len())[id] == locals[id]
        }),
{
    let pairs = candidates(indexed, colliders, locals, colliders.len());
    assert forall|k: int| 0 <= k < pairs.len() implies (#[trigger] pairs[k]).object != id by {
        lemma_candidates_exact(indexed, colliders, locals, colliders.len(), pairs[k]);
        assert(pairs.contains(pairs[k]));
    }
    lemma_only_paired_objects_move(colliders, locals, pairs, contacts, pairs.len(), id);
}

/// What the first `n` pairs leave behind depends on the outcomes of their
/// tests only, not on those of later pairs.
pub proof fn lemma_resolved_ignores_later(
    colliders: Seq<Option<Collider>>,
    locals: Seq<Option<LocalTransform>>,
    pairs: Seq<Pair>,
    c1: Seq<Option<Contact>>,
    c2: Seq<Option<Contact>>,
    n: nat,
)
    requires
        n <= c1.len(),
        n <= c2.len(),
        forall|k: int| 0 <= k < n ==> c1[k] == c2[k],
    ensures
        resolved(colliders, locals, pairs, c1, n) == resolved(colliders, locals, pairs, c2, n),
    decreases n,
{
    if n > 0 {
        lemma_resolved_ignores_later(colliders, locals, pairs, c1, c2, (n - 1) as nat);
    }
}

/// A pass over the candidate pairs of one tick. It hands out one pair after
/// the other, in the order of the broad phase, and takes the outcome of
/// each pair's exact test.
pub struct Resolution {
    pairs: Vec<Pair>,
    cursor: usize,
    start: Ghost<Seq<Option<LocalTransform>>>,
    taken: Ghost<Seq<Option<Contact>>>,
}

impl Resolution {
    #[verifier::type_invariant]
    spec fn inv(self) -> bool {
        self.cursor <= self.pairs@.len()
    }

    /// The candidate pairs of the pass, in the order in which they are
    /// resolved.
    pub closed spec fn spec_pairs(self) -> Seq<Pair> {
        self.pairs@
    }

    /// The number of pairs that are done with.
    pub closed spec fn spec_cursor(self) -> nat {
        self.cursor as nat
    }

    /// The transforms as they stood when the pass began.
    pub closed spec fn spec_start(self) -> Seq<Option<LocalTransform>> {
        self.start@
    }

    /// The outcomes of the exact tests that the pass has taken so far, one
    /// for each pair that is done with.
    pub closed spec fn spec_taken(self) -> Seq<Option<Contact>> {
        self.taken@
    }

    /// The pass has been fed with the scene it began on: `locals` are the
    /// transforms of its beginning with the pairs that are done with
    /// resolved one after the other.
    pub open spec fn tracks(
        self,
        colliders: Seq<Option<Collider>>,
        locals: Seq<Option<LocalTransform>>,
    ) -> bool {
        &&& self.spec_taken().len() == self.spec_cursor()
        &&& locals == resolved(
            colliders,
            self.spec_start(),
            self.spec_pairs(),
            self.spec_taken(),
            self.spec_cursor(),
        )
    }

    /// The pair whose test is due; none when the pass is over.
    pub open spec fn spec_pending(self) -> Option<Pair> {
        if self.spec_cursor() < self.spec_pairs().len() {
            Some(self.spec_pairs()[self.spec_cursor() as int])
        } else {
            None
        }
    }

    /// A pass over `pairs` that begins on the transforms `locals`, with
    /// none of the pairs done with.
    pub fn new(pairs: Vec<Pair>, locals: &Vec<Option<LocalTransform>>) -> (pass: Resolution)
        ensures
            pass.spec_pairs() == pairs@,
            pass.spec_cursor() == 0,
            pass.spec_start() == locals@,
            pass.spec_taken() == Seq::<Option<Contact>>::empty(),
            forall|colliders: Seq<Option<Collider>>| #[trigger] pass.tracks(colliders, locals@),
    {
        Resolution { pairs, cursor: 0, start: Ghost(locals@), taken: Ghost(Seq::empty()) }
    }

    pub fn pairs(&self) -> (pairs: &Vec<Pair>)
        ensures
            pairs@ == self.spec_pairs(),
    {
        &self.pairs
    }

    pub fn cursor(&self) -> (cursor: usize)
        ensures
            cursor == self.spec_cursor(),
            cursor <= self.spec_pairs().len(),
    {
        proof {
            use_type_invariant(self);
        }
        self.cursor
    }

    pub fn is_finished(&self) -> (b: bool)
        ensures
            b == (self.spec_pending() is None),
    {
        proof {
            use_type_invariant(self);
        }
        self.cursor >= self.pairs.len()
    }

    /// The pair whose exact test is due; none when the pass is over.
    pub fn pending(&self) -> (pair: Option<Pair>)
        ensures
            pair == self.spec_pending(),
    {
        if self.cursor < self.pairs.len() {
            Some(self.pairs[self.cursor])
        } else {
            None
        }
    }

    /// Tells what stands against the exact test of `pair`, if anything.
    pub fn check(
        colliders: &Vec<Option<Collider>>,
        locals: &Vec<Option<LocalTransform>>,
        pair: Pair,
    ) -> (found: Option<CollisionError>)
        ensures
            found == obstacle(colliders@, locals@, pair),
    {
        if pair.object >= colliders.len() || pair.object >= locals.len() || pair.fixed
            >= colliders.len() || pair.fixed >= locals.len() {
            return Some(CollisionError::MissingComponent);
        }
        if locals[pair.object].is_none() || locals[pair.fixed].is_none() {
            return Some(CollisionError::MissingComponent);
        }
        match (&colliders[pair.object], &colliders[pair.fixed]) {
            (Some(moving), Some(fixed)) => {
                if moving.shape().pairs_with(fixed.shape()) {
                    None
                } else {
                    Some(CollisionError::UnsupportedShapePair)
                }
            },
            _ => Some(CollisionError::MissingComponent),
        }
    }

    /// Tells whether `contact` can be applied to `pair`.
    pub fn accepts(
        colliders: &Vec<Option<Collider>>,
        locals: &Vec<Option<LocalTransform>>,
        pair: Pair,
        contact: &Option<Contact>,
    ) -> (b: bool)
        requires
            transforms_wf(locals@),
        ensures
            b == admissible(colliders@, locals@, pair, *contact),
    {
        match contact {
            Some(c) => {
                if !c.is_wf() {
                    return false;
                }
                match Resolution::check(colliders, locals, pair) {
                    Some(_) => true,
                    None => {
                        let local = locals[pair.object].unwrap();
                        c.fits(&local.translation)
                    },
                }
            },
            None => true,
        }
    }

    /// Takes the outcome of the exact test of the pending pair: `contact`
    /// is the contact that the test has found between the moving entity and
    /// the static one, on the transforms as they stand, or none if the two
    /// do not touch.
    ///
    /// With a contact the moving entity is pushed out and marked as moved,
    /// and the result is `Ok(true)`. Without one nothing moves, and the
    /// result is `Ok(false)`. Where the two shapes are of kinds between
    /// which no contact can be computed, nothing moves, whatever `contact`
    /// holds, and the result is the error `UnsupportedShapePair`. In these
    /// three cases the pass goes on to the next pair. Where an entity of the
    /// pair has lost its collider or its transform, the result is the error
    /// `MissingComponent` and the pass stays at the pair. When the pass is
    /// over, nothing happens and the result is `Ok(false)`.
    pub fn step(
        &mut self,
        colliders: &Vec<Option<Collider>>,
        locals: &mut Vec<Option<LocalTransform>>,
        contact: Option<Contact>,
    ) -> (outcome: Result<bool, CollisionError>)
        requires
            transforms_wf(old(locals)@),
            old(self).spec_pending() matches Some(pair) ==> admissible(
                colliders@,
                old(locals)@,
                pair,
                contact,
            ),
        ensures
            final(self).spec_pairs() == old(self).spec_pairs(),
            final(self).spec_start() == old(self).spec_start(),
            transforms_wf(final(locals)@),
            final(locals)@.len() == old(locals)@.len(),
            final(self).spec_taken() == if final(self).spec_cursor() == old(self).spec_cursor() {
                old(self).spec_taken()
            } else {
                old(self).spec_taken().push(contact)
            },
            old(self).tracks(colliders@, old(locals)@) ==> final(self).tracks(
                colliders@,
                final(locals)@,
            ),
            old(self).spec_pending() is None ==> {
                &&& outcome == Ok::<bool, CollisionError>(false)
                &&& final(self).spec_cursor() == old(self).spec_cursor()
                &&& final(locals)@ == old(locals)@
            },
            old(self).spec_pending() matches Some(pair) ==> {
                &&& final(locals)@ == respond(colliders@, old(locals)@, pair, contact)
                &&& match obstacle(colliders@, old(locals)@, pair) {
                    Some(CollisionError::MissingComponent) => {
                        &&& outcome == Err::<bool, CollisionError>(CollisionError::MissingComponent)
                        &&& final(self).spec_cursor() == old(self).spec_cursor()
                    },
                    Some(error) => {
                        &&& outcome == Err::<bool, CollisionError>(error)
                        &&& final(self).spec_cursor() == old(self).spec_cursor() + 1
                    },
                    None => {
                        &&& outcome == Ok::<bool, CollisionError>(contact is Some)
                        &&& final(self).spec_cursor() == old(self).spec_cursor() + 1
                    },
                }
            },
    {
        proof {
            use_type_invariant(&*self);
        }
        if self.cursor >= self.pairs.len() {
            return Ok(false);
        }
        let pair = self.pairs[self.cursor];
        proof {
            if self.taken@.len() == self.cursor {
                lemma_resolved_ignores_later(
                    colliders@,
                    self.start@,
                    self.pairs@,
                    self.taken@,
                    self.taken@.push(contact),
                    self.cursor as nat,
                );
            }
        }
        match Resolution::check(colliders, locals, pair) {
            Some(CollisionError::MissingComponent) => Err(CollisionError::MissingComponent),
            Some(error) => {
                self.taken = Ghost(self.taken@.push(contact));
                self.cursor = self.cursor + 1;
                Err(error)
            },
            None => {
                self.taken = Ghost(self.taken@.push(contact));
                self.cursor = self.cursor + 1;
                match contact {
                    Some(c) => {
                        let local = locals[pair.object].unwrap();
                        let moved = LocalTransform {
                            translation: c.resolve(&local.translation),
                            rotation: local.rotation,
                            dirty: true,
                        };
                        locals.set(pair.object, Some(moved));
                        proof {
                            assert(moved == pushed(local, c));
                            assert(moved.wf());
                            assert forall|i: int|
                                0 <= i < locals@.len() && locals@[i] is Some implies (
                            #[trigger] locals@[i]).unwrap().wf() by {
                                if i != pair.object {
                                    assert(locals@[i] == old(locals)@[i]);
                                }
                            }
                        }
                        Ok(true)
                    },
                    None => Ok(false),
                }
            },
        }
    }
}

/// Tells whether every stored transform lies in the world.
pub fn transforms_valid(locals: &Vec<Option<LocalTransform>>) -> (b: bool)
    ensures
        b == transforms_wf(locals@),
{
    let mut i: usize = 0;
    while i < locals.len()
        invariant
            i <= locals@.len(),
            forall|k: int|
                0 <= k < i && locals@[k] is Some ==> (#[trigger] locals@[k]).unwrap().wf(),
        decreases locals@.len() - i,
    {
        match &locals[i] {
            Some(local) => {
                if !local.is_wf() {
                    return false;
                }
            },
            None => {},
        }
        i += 1;
    }
    true
}

/// Where no two indexed leaves have the same id, no candidate pair occurs
/// twice, and every candidate pair has one of the first `n` entities as
/// its moving body.
pub proof fn lemma_candidates_no_duplicates(
    indexed: Seq<Leaf>,
    colliders: Seq<Option<Collider>>,
    locals: Seq<Option<LocalTransform>>,
    n: nat,
)
    requires
        n <= usize::MAX,
        distinct_ids(indexed),
    ensures
        candidates(indexed, colliders, locals, n).no_duplicates(),
        forall|k: int|
            0 <= k < candidates(indexed, colliders, locals, n).len() ==> (#[trigger] candidates(
                indexed,
                colliders,
                locals,
                n,
            )[k]).object < n,
    decreases n,
{
    if n > 0 {
        let rest = candidates(indexed, colliders, locals, (n - 1) as nat);
        lemma_candidates_no_duplicates(indexed, colliders, locals, (n - 1) as nat);
        if is_body_on(colliders, locals, ColliderLayer::Object, n - 1) {
            let found = hits(indexed, body_aabb(colliders, locals, n - 1));
            let added = pairs_of((n - 1) as usize, found);
            let all = rest + added;
            lemma_hits_no_duplicates(indexed, body_aabb(colliders, locals, n - 1));
            assert forall|i: int, j: int| 0 <= i < all.len() && 0 <= j < all.len() && i
                != j implies all[i] != all[j] by {
                if i < rest.len() && j < rest.len() {
                    assert(rest[i] != rest[j]);
                } else if i >= rest.len() && j >= rest.len() {
                    assert(found[i - rest.len()] != found[j - rest.len()]);
                } else if i < rest.len() {
                    assert(rest[i].object < n - 1);
                    assert(added[j - rest.len()].object == n - 1);
                } else {
                    assert(rest[j].object < n - 1);
                    assert(added[i - rest.len()].object == n - 1);
                }
            }
            assert forall|k: int| 0 <= k < all.len() implies (#[trigger] all[k]).object < n by {
                if k < rest.len() {
                    assert(rest[k].object < n - 1);
                } else {
                    assert(added[k - rest.len()].object == n - 1);
                }
            }
        }
    }
}

impl View for StaticWorld {
    type V = Seq<Leaf>;

    closed spec fn view(&self) -> Seq<Leaf> {
        self.bvt@
    }
}

impl StaticWorld {
    /// The index is a tree as `BoundingVolumeTree::build` makes it.
    pub closed spec fn wf(self) -> bool {
        self.bvt.wf()
    }

    /// Indexes the static bodies of the scene: every entity that has a
    /// transform and a collider on the static layer, under its bounding box
    /// where it stands.
    pub fn construct(
        colliders: &Vec<Option<Collider>>,
        locals: &Vec<Option<LocalTransform>>,
    ) -> (world: StaticWorld)
        requires
            transforms_wf(locals@),
        ensures
            world.wf(),
            world@.to_multiset() == layer_leaves(
                colliders@,
                locals@,
                ColliderLayer::Static,
                colliders@.len(),
            ).to_multiset(),
            median_split(world@),
            distinct_ids(world@),
    {
        let mut leaves: Vec<Leaf> = Vec::new();
        let mut id: usize = 0;
        while id < colliders.len()
            invariant
                id <= colliders@.len(),
                transforms_wf(locals@),
                leaves@ == layer_leaves(colliders@, locals@, ColliderLayer::Static, id as nat),
            decreases colliders@.len() - id,
        {
            if id < locals.len() {
                match (&colliders[id], &locals[id]) {
                    (Some(collider), Some(local)) => {
                        if collider.layer() == ColliderLayer::Static {
                            leaves.push(Leaf { id, aabb: collider.aabb(local) });
                        }
                    },
                    _ => {},
                }
            }
            id += 1;
        }
        proof {
            lemma_layer_leaves_distinct(
                colliders@,
                locals@,
                ColliderLayer::Static,
                colliders@.len(),
            );
        }
        let ghost given = leaves@;
        let bvt = BoundingVolumeTree::build(leaves);
        proof {
            lemma_distinct_ids_reordered(given, bvt@);
        }
        StaticWorld { bvt }
    }

    /// Begins the resolution of one tick's collisions: runs the broad phase
    /// on the scene as it stands and returns the pass over the candidate
    /// pairs that it yields.
    pub fn resolve_collisions(
        &self,
        colliders: &Vec<Option<Collider>>,
        locals: &Vec<Option<LocalTransform>>,
    ) -> (pass: Resolution)
        requires
            transforms_wf(locals@),
        ensures
            pass.spec_pairs() == candidates(self@, colliders@, locals@, colliders@.len()),
            pass.spec_cursor() == 0,
            pass.spec_start() == locals@,
            pass.tracks(colliders@, locals@),
            distinct_ids(self@) ==> pass.spec_pairs().no_duplicates(),
            forall|pair: Pair|
                pass.spec_pairs().contains(pair) <==> #[trigger] is_candidate(
                    self@,
                    colliders@,
                    locals@,
                    pair,
                ),
    {
        Resolution::new(self.broad_phase(colliders, locals), locals)
    }

    /// The indexed tree.
    pub fn tree(&self) -> (bvt: &BoundingVolumeTree)
        ensures
            bvt@ == self@,
            bvt.wf() == self.wf(),
    {
        &self.bvt
    }

    /// The broad phase: for each moving body, in the order of the entities,
    /// its pairs with the indexed static leaves whose box meets its own.
    pub fn broad_phase(
        &self,
        colliders: &Vec<Option<Collider>>,
        locals: &Vec<Option<LocalTransform>>,
    ) -> (pairs: Vec<Pair>)
        requires
            transforms_wf(locals@),
        ensures
            pairs@ == candidates(self@, colliders@, locals@, colliders@.len()),
            forall|pair: Pair|
                pairs@.contains(pair) <==> #[trigger] is_candidate(
                    self@,
                    colliders@,
                    locals@,
                    pair,
                ),
            distinct_ids(self@) ==> pairs@.no_duplicates(),
    {
        let mut pairs: Vec<Pair> = Vec::new();
        let mut id: usize = 0;
        while id < colliders.len()
            invariant
                id <= colliders@.len(),
                transforms_wf(locals@),
                pairs@ == candidates(self@, colliders@, locals@, id as nat),
            decreases colliders@.len() - id,
        {
            if id < locals.len() {
                match (&colliders[id], &locals[id]) {
                    (Some(collider), Some(local)) => {
                        if collider.layer() == ColliderLayer::Object {
                            let bounds = collider.aabb(local);
                            let found = self.bvt.overlapping(&bounds);
                            let ghost before = pairs@;
                            let mut k: usize = 0;
                            while k < found.len()
                                invariant
                                    k <= found@.len(),
                                    pairs@ == before + pairs_of(id, found@.take(k as int)),
                                decreases found@.len() - k,
                            {
                                pairs.push(Pair { object: id, fixed: found[k] });
                                proof {
                                    assert(pairs_of(id, found@.take(k + 1)) =~= pairs_of(
                                        id,
                                        found@.take(k as int),
                                    ).push(Pair { object: id, fixed: found@[k as int] }));
                                }
                                k += 1;
                            }
                            proof {
                                assert(found@.take(k as int) =~= found@);
                            }
                        }
                    },
                    _ => {},
                }
            }
            id += 1;
        }
        proof {
            assert forall|pair: Pair| pairs@.contains(pair) <==> #[trigger] is_candidate(
                self@,
                colliders@,
                locals@,
                pair,
            ) by {
                lemma_candidates_exact(self@, colliders@, locals@, colliders@.len(), pair);
            }
            if distinct_ids(self@) {
                lemma_candidates_no_duplicates(self@, colliders@, locals@, colliders@.len());
            }
        }
        pairs
    }
}

} // verus!
