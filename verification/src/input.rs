use std::collections::HashSet;
use std::hash::Hash;
use vstd::prelude::*;
use vstd::std_specs::hash::obeys_key_model;

verus! {

broadcast use vstd::std_specs::hash::group_hash_axioms;

/// Anything that can be tracked by an [`Input`]: a key code, a mouse button, ...
pub trait InputEvent: Hash + Eq + Copy {

}

impl<T> InputEvent for T where T: Hash + Eq + Copy {

}

/// The per-frame state of a set of buttons.
///
/// `pressed` holds the events pressed during the current frame, `held` the
/// events that are down right now and `released` the events released during
/// the current frame.  [`Input::update`] starts a new frame.
pub struct Input<T: InputEvent> {
    pressed: HashSet<T>,
    held: HashSet<T>,
    released: HashSet<T>,
}

/// The abstract state of an [`Input`].
#[verifier::ext_equal]
#[verifier::reject_recursive_types(T)]
pub struct InputView<T> {
    /// The events pressed during the current frame.
    pub pressed: Set<T>,
    /// The events that are down right now.
    pub held: Set<T>,
    /// The events released during the current frame.
    pub released: Set<T>,
}

impl<T> InputView<T> {
    /// Nothing pressed, held or released.
    pub open spec fn empty() -> Self {
        InputView { pressed: Set::empty(), held: Set::empty(), released: Set::empty() }
    }

    /// The state after `e` went down: pressed this frame and held.
    pub open spec fn press(self, e: T) -> Self {
        InputView { pressed: self.pressed.insert(e), held: self.held.insert(e), ..self }
    }

    /// The state after `e` went up: no longer held, released this frame.
    pub open spec fn release(self, e: T) -> Self {
        InputView { held: self.held.remove(e), released: self.released.insert(e), ..self }
    }

    /// The state at the start of the next frame: what is held stays held.
    pub open spec fn update(self) -> Self {
        InputView { pressed: Set::empty(), released: Set::empty(), ..self }
    }

    /// An event pressed this frame and no longer held was released this
    /// frame, and an event released this frame and held again was pressed
    /// this frame.
    pub open spec fn consistent(self) -> bool {
        &&& forall|e: T|
            #[trigger] self.pressed.contains(e) && !self.held.contains(e) ==> self.released.contains(e)
        &&& forall|e: T|
            #[trigger] self.released.contains(e) && self.held.contains(e) ==> self.pressed.contains(e)
    }
}

impl<T: InputEvent> View for Input<T> {
    type V = InputView<T>;

    closed spec fn view(&self) -> InputView<T> {
        InputView { pressed: self.pressed@, held: self.held@, released: self.released@ }
    }
}

impl<T: InputEvent> Input<T> {
    /// An input state in which nothing is pressed, held or released.
    pub fn new() -> (input: Self)
        ensures
            input@ == InputView::<T>::empty(),
    {
        let input = Self { pressed: HashSet::new(), held: HashSet::new(), released: HashSet::new() };
        assert(input@ =~= InputView::<T>::empty());
        input
    }

    /// Records that `event` went down: it is pressed this frame and held
    /// from now on.
    pub fn press(&mut self, event: T)
        ensures
            obeys_key_model::<T>() ==> final(self)@ == old(self)@.press(event),
    {
        self.pressed.insert(event);
        self.held.insert(event);
    }

    /// Records that `event` went up: it is no longer held and it is
    /// released this frame.
    pub fn release(&mut self, event: T)
        ensures
            obeys_key_model::<T>() ==> final(self)@ == old(self)@.release(event),
    {
        self.held.remove(&event);
        self.released.insert(event);
    }

    /// Starts a new frame: nothing is pressed or released any more, what is
    /// held stays held.
    pub fn update(&mut self)
        ensures
            final(self)@ == old(self)@.update(),
    {
        self.pressed.clear();
        self.released.clear();
        assert(self@ =~= old(self)@.update());
    }

    /// Whether `event` was pressed during the current frame.
    pub fn pressed(&self, event: &T) -> (b: bool)
        ensures
            obeys_key_model::<T>() ==> b == self@.pressed.contains(*event),
    {
        self.pressed.contains(event)
    }

    /// Whether `event` is down right now.
    pub fn held(&self, event: &T) -> (b: bool)
        ensures
            obeys_key_model::<T>() ==> b == self@.held.contains(*event),
    {
        self.held.contains(event)
    }

    /// Whether `event` was released during the current frame.
    pub fn released(&self, event: &T) -> (b: bool)
        ensures
            obeys_key_model::<T>() ==> b == self@.released.contains(*event),
    {
        self.released.contains(event)
    }
}

impl<T: InputEvent> Default for Input<T> {
    fn default() -> (input: Self)
        ensures
            input@ == InputView::<T>::empty(),
    {
        Self::new()
    }
}

/// Pressing and then releasing an event that was not held leaves the held
/// events as they were, and the event counts as both pressed and released
/// this frame.
pub proof fn lemma_press_release<T>(v: InputView<T>, e: T)
    requires
        !v.held.contains(e),
    ensures
        v.press(e).release(e).held == v.held,
        v.press(e).release(e).pressed.contains(e),
        v.press(e).release(e).released.contains(e),
{
    assert(v.held.insert(e).remove(e) =~= v.held);
}

/// Pressing an event twice is the same as pressing it once.
pub proof fn lemma_press_idempotent<T>(v: InputView<T>, e: T)
    ensures
        v.press(e).press(e) == v.press(e),
{
    assert(v.press(e).press(e) =~= v.press(e));
}

/// An event pressed and not released stays held across frames, no longer
/// counting as pressed.
pub proof fn lemma_held_across_frames<T>(v: InputView<T>, e: T)
    ensures
        v.press(e).update().held.contains(e),
        !v.press(e).update().pressed.contains(e),
        v.update().update() == v.update(),
{
    assert(v.update().update() =~= v.update());
}

/// Every operation keeps an input state consistent: an event pressed this
/// frame and no longer held was released this frame, and an event released
/// this frame and held again was pressed this frame.
pub proof fn lemma_consistent<T>(v: InputView<T>, e: T)
    requires
        v.consistent(),
    ensures
        InputView::<T>::empty().consistent(),
        v.press(e).consistent(),
        v.release(e).consistent(),
        v.update().consistent(),
{
}

/// A call on an [`Input`].
pub enum InputOp<T> {
    Press(T),
    Release(T),
    Update,
}

/// The state reached from a fresh [`Input`] by the calls `ops`, in order.
pub open spec fn run_ops<T>(ops: Seq<InputOp<T>>) -> InputView<T>
    decreases ops.len(),
{
    if ops.len() == 0 {
        InputView::empty()
    } else {
        let v = run_ops(ops.drop_last());
        match ops.last() {
            InputOp::Press(e) => v.press(e),
            InputOp::Release(e) => v.release(e),
            InputOp::Update => v.update(),
        }
    }
}

/// The calls of `ops` after its last `Update`, or all of them when it has
/// none.
pub open spec fn since_update<T>(ops: Seq<InputOp<T>>) -> Seq<InputOp<T>>
    decreases ops.len(),
{
    if ops.len() == 0 {
        ops
    } else if ops.last() is Update {
        Seq::empty()
    } else {
        since_update(ops.drop_last()).push(ops.last())
    }
}

/// `e` is pressed at position `i` of `ops` and not released after it.
pub open spec fn held_from<T>(ops: Seq<InputOp<T>>, e: T, i: int) -> bool {
    &&& 0 <= i < ops.len()
    &&& ops[i] == InputOp::Press(e)
    &&& forall|j: int| i < j < ops.len() ==> #[trigger] ops[j] != InputOp::Release(e)
}

/// After any calls from a fresh input: an event counts as pressed exactly
/// when it was pressed since the last update, as released exactly when it
/// was released since the last update, and as held exactly when it was
/// pressed and not released since; updates do not change what is held.
pub proof fn lemma_run_ops<T>(ops: Seq<InputOp<T>>, e: T)
    ensures
        run_ops(ops).pressed.contains(e) <==> since_update(ops).contains(InputOp::Press(e)),
        run_ops(ops).released.contains(e) <==> since_update(ops).contains(InputOp::Release(e)),
        run_ops(ops).held.contains(e) <==> exists|i: int| held_from(ops, e, i),
        run_ops(ops).consistent(),
    decreases ops.len(),
{
    if ops.len() > 0 {
        let r = ops.drop_last();
        lemma_run_ops(r, e);
        let l = ops.last();
        match l {
            InputOp::Press(a) => lemma_consistent(run_ops(r), a),
            InputOp::Release(a) => lemma_consistent(run_ops(r), a),
            InputOp::Update => lemma_consistent(run_ops(r), e),
        }
        match l {
            InputOp::Update => {
                assert(since_update(ops) =~= Seq::<InputOp<T>>::empty());
            },
            _ => {
                let su = since_update(r);
                assert(since_update(ops) == su.push(l));
                assert(su.push(l).last() == l);
                assert forall|o: InputOp<T>| su.contains(o) implies su.push(l).contains(o) by {
                    let k = choose|k: int| 0 <= k < su.len() && su[k] == o;
                    assert(su.push(l)[k] == o);
                }
                assert forall|o: InputOp<T>| su.push(l).contains(o) implies su.contains(o) || o == l by {
                    let k = choose|k: int| 0 <= k < su.push(l).len() && su.push(l)[k] == o;
                    if k < su.len() {
                        assert(su[k] == o);
                    }
                }
                assert(su.push(l).contains(l)) by {
                    assert(su.push(l)[su.len() as int] == l);
                }
            },
        }
        // held
        if run_ops(ops).held.contains(e) {
            if l == InputOp::Press(e) {
                assert(held_from(ops, e, ops.len() - 1));
            } else {
                let i = choose|i: int| held_from(r, e, i);
                assert forall|j: int| i < j < ops.len() implies #[trigger] ops[j] != InputOp::Release(e) by {
                    if j < r.len() {
                        assert(r[j] == ops[j]);
                    }
                }
                assert(ops[i] == r[i]);
                assert(held_from(ops, e, i));
            }
        }
        if exists|i: int| held_from(ops, e, i) {
            let i = choose|i: int| held_from(ops, e, i);
            if i < r.len() {
                assert(ops[ops.len() - 1] != InputOp::Release(e));
                assert forall|j: int| i < j < r.len() implies #[trigger] r[j] != InputOp::Release(e) by {
                    assert(r[j] == ops[j]);
                }
                assert(r[i] == ops[i]);
                assert(held_from(r, e, i));
            }
        }
    }
}

} // verus!
