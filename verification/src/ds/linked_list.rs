use vstd::prelude::*;
use vstd::std_specs::cmp::PartialEqSpec;

verus! {

struct Node<T> {
    value: T,
    next: Option<Box<Node<T>>>,
}

/// The values from `link` to the end of the chain.
spec fn chain<T>(link: Option<Box<Node<T>>>) -> Seq<T>
    decreases link,
{
    match link {
        None => Seq::empty(),
        Some(node) => seq![node.value] + chain(node.next),
    }
}

/// `values` without the first value that equals `value`, or as they are if
/// none does.
pub open spec fn without_first<T: PartialEq>(values: Seq<T>, value: T) -> Seq<T>
    decreases values.len(),
{
    if values.len() == 0 {
        values
    } else if values[0].eq_spec(&value) {
        values.drop_first()
    } else {
        seq![values[0]] + without_first(values.drop_first(), value)
    }
}

/// Taking out the first value that equals `value` leaves the other
/// values, and at most one fewer.
pub proof fn lemma_without_first<T: PartialEq>(values: Seq<T>, value: T)
    ensures
        without_first(values, value).len() + 1 == values.len() || without_first(values, value)
            == values,
        values.len() > 0 && values[0].eq_spec(&value) ==> without_first(values, value)
            == values.drop_first(),
        (forall|i: int| 0 <= i < values.len() ==> !(#[trigger] values[i]).eq_spec(&value))
            ==> without_first(values, value) == values,
        (exists|i: int| 0 <= i < values.len() && (#[trigger] values[i]).eq_spec(&value))
            ==> without_first(values, value).len() + 1 == values.len(),
    decreases values.len(),
{
    if values.len() > 0 && !values[0].eq_spec(&value) {
        let rest = values.drop_first();
        lemma_without_first(rest, value);
        if forall|i: int| 0 <= i < values.len() ==> !(#[trigger] values[i]).eq_spec(&value) {
            assert forall|i: int| 0 <= i < rest.len() implies !(#[trigger] rest[i]).eq_spec(
                &value,
            ) by {
                assert(rest[i] == values[i + 1]);
            }
            assert(seq![values[0]] + rest =~= values);
        }
        if exists|i: int| 0 <= i < values.len() && (#[trigger] values[i]).eq_spec(&value) {
            let i = choose|i: int| 0 <= i < values.len() && (#[trigger] values[i]).eq_spec(&value);
            assert(rest[i - 1] == values[i]);
        }
        if without_first(rest, value) == rest {
            assert(seq![values[0]] + rest =~= values);
        }
    }
}

/// A chain of values, the newest first.
pub struct LinkedList<T> {
    head: Option<Box<Node<T>>>,
}

impl<T> View for LinkedList<T> {
    type V = Seq<T>;

    /// The values from the newest to the oldest.
    closed spec fn view(&self) -> Seq<T> {
        chain(self.head)
    }
}

/// Takes the first node whose value equals `value` out of the chain that
/// begins at `head`.
fn unlink<T: Eq + Copy>(head: &mut Option<Box<Node<T>>>, value: T)
    ensures
        T::obeys_eq_spec() ==> chain(*final(head)) == without_first(chain(*old(head)), value),
        chain(*final(head)) == chain(*old(head)) || chain(*final(head)).len() + 1 == chain(
            *old(head),
        ).len(),
{
    let mut cursor = head;

    loop
        invariant
            T::obeys_eq_spec() && chain(*final(cursor)) == without_first(chain(*cursor), value)
                ==> chain(*final(head)) == without_first(chain(*old(head)), value),
            chain(*final(cursor)) == chain(*cursor) ==> chain(*final(head)) == chain(*old(head)),
            chain(*final(cursor)).len() + 1 == chain(*cursor).len() ==> chain(
                *final(head),
            ).len() + 1 == chain(*old(head)).len(),
        ensures
            T::obeys_eq_spec() && chain(*final(cursor)) == without_first(chain(*cursor), value)
                ==> chain(*final(head)) == without_first(chain(*old(head)), value),
            chain(*final(cursor)) == chain(*cursor) ==> chain(*final(head)) == chain(*old(head)),
            chain(*final(cursor)).len() + 1 == chain(*cursor).len() ==> chain(
                *final(head),
            ).len() + 1 == chain(*old(head)).len(),
            T::obeys_eq_spec() ==> match *cursor {
                None => true,
                Some(node) => node.value.eq_spec(&value),
            },
        decreases *cursor,
    {
        let found = match cursor {
            None => true,
            Some(node) => node.value == value,
        };
        if found {
            break ;
        }
        let ghost here = *cursor;
        let ghost then = *final(cursor);
        let node = cursor.as_mut().unwrap();
        cursor = &mut node.next;
        proof {
            assert(then is Some);
            assert(then->0.value == here->0.value);
            assert(then->0.next == *final(cursor));
            assert(chain(here).drop_first() =~= chain(*cursor));
            assert(chain(then) == seq![here->0.value] + chain(*final(cursor)));
            assert(chain(*final(cursor)) == chain(*cursor) ==> chain(then) =~= chain(here));
        }
    }
    let ghost here = *cursor;
    let taken = cursor.take();
    if let Some(node) = taken {
        assert(chain(here).drop_first() =~= chain(node.next));
        *cursor = node.next;
    }
}

impl<T: Eq + Copy> LinkedList<T> {
    pub fn new() -> (list: Self)
        ensures
            list@ == Seq::<T>::empty(),
    {
        Self { head: None }
    }

    /// Puts `value` in front.
    pub fn add(&mut self, value: T)
        ensures
            final(self)@ == seq![value] + old(self)@,
    {
        self.head = Some(Box::new(Node { value, next: self.head.take() }));
    }

    /// Takes out the first value, from the front, that equals `value`, if
    /// there is one.
    pub fn remove(&mut self, value: T)
        ensures
            T::obeys_eq_spec() ==> final(self)@ == without_first(old(self)@, value),
            final(self)@ == old(self)@ || final(self)@.len() + 1 == old(self)@.len(),
    {
        unlink(&mut self.head, value);
    }

    /// The values from the front to the back.
    pub fn collect(&self) -> (result: Vec<T>)
        ensures
            result@ == self@,
    {
        let mut result: Vec<T> = Vec::new();
        let mut curr_ref = &self.head;

        loop
            invariant
                result@ + chain(*curr_ref) == self@,
            ensures
                result@ == self@,
            decreases *curr_ref,
        {
            match curr_ref {
                None => {
                    assert(result@ + chain(*curr_ref) =~= result@);
                    break ;
                },
                Some(node) => {
                    let ghost before = result@;
                    result.push(node.value);
                    assert(result@ + chain(node.next) =~= before + chain(*curr_ref));
                    curr_ref = &node.next;
                },
            }
        }
        result
    }

    pub fn is_empty(&self) -> (empty: bool)
        ensures
            empty == (self@.len() == 0),
    {
        self.head.is_none()
    }
}

} // verus!
