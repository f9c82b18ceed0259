//! A doubly linked list whose nodes live in an arena.
//!
//! Nodes are addressed by slot numbers that stay the same for as long as the
//! node is in the list. Links between nodes, and the list's head and tail, are
//! optional slot numbers. Slots of removed nodes are kept on a free stack
//! and handed out again by later insertions.

use vstd::prelude::*;
use vstd::std_specs::cmp::PartialEqSpec;

verus! {

/// One element of the list: a value and the slots of its two neighbours.
pub struct Node<T> {
    pub value: T,
    pub next: Option<usize>,
    pub prev: Option<usize>,
}

/// A doubly linked list of values of type `T`.
pub struct LinkedList<T> {
    slots: Vec<Option<Node<T>>>,
    free: Vec<usize>,
    head: Option<usize>,
    tail: Option<usize>,
    order: Ghost<Seq<usize>>,
}

/// `a == b` may answer `true`. For a type whose `==` has a meaning in
/// contracts this says that the two are equal in that meaning; for any type
/// it says what the contract of its `eq` lets the comparison answer.
pub open spec fn equal<T: PartialEq>(a: T, b: T) -> bool {
    call_ensures(T::eq, (&a, &b), true)
}

/// `a == b` may answer `false`.
pub open spec fn unequal<T: PartialEq>(a: T, b: T) -> bool {
    call_ensures(T::eq, (&a, &b), false)
}

/// The `==` of `T` never has the choice between `true` and `false`.
pub open spec fn eq_is_decided<T: PartialEq>() -> bool {
    forall|a: T, b: T| !(#[trigger] equal(a, b) && unequal(a, b))
}

/// `i` is the first position of `s` whose value equals `v`.
pub open spec fn is_first_match<T: PartialEq>(s: Seq<T>, v: T, i: int) -> bool {
    &&& 0 <= i < s.len()
    &&& equal(s[i], v)
    &&& forall|j: int| 0 <= j < i ==> unequal(#[trigger] s[j], v)
}

/// No value of `s` equals `v`.
pub open spec fn is_absent<T: PartialEq>(s: Seq<T>, v: T) -> bool {
    forall|j: int| 0 <= j < s.len() ==> unequal(#[trigger] s[j], v)
}

/// What a search for `v` in `s` may answer: the first position whose value
/// equals `v`, or nothing where no value equals it.
pub open spec fn index_found<T: PartialEq>(s: Seq<T>, v: T, found: Option<usize>) -> bool {
    match found {
        Some(index) => is_first_match(s, v, index as int),
        None => is_absent(s, v),
    }
}

/// What a lookup at position `index` of `s` may answer: a clone of the value
/// there, or nothing where `index` is past the end.
pub open spec fn value_found<T: Clone>(s: Seq<T>, index: usize, found: Option<T>) -> bool {
    match found {
        Some(v) => index < s.len() && cloned(s[index as int], v),
        None => index >= s.len(),
    }
}

/// `post` is `pre` without its first value equal to `v`, or `pre` itself
/// where no value equals `v`.
pub open spec fn value_deleted<T: PartialEq>(pre: Seq<T>, post: Seq<T>, v: T) -> bool {
    ||| exists|i: int| #[trigger] is_first_match(pre, v, i) && post == pre.remove(i)
    ||| is_absent(pre, v) && post == pre
}

/// `post` is `pre` without the value at `index`, or `pre` itself where
/// `index` is past the end.
pub open spec fn index_deleted<T>(pre: Seq<T>, post: Seq<T>, index: usize) -> bool {
    if index < pre.len() {
        post == pre.remove(index as int)
    } else {
        post == pre
    }
}

/// `post` is `pre` with `value` right behind position `index`, or `pre`
/// itself where `index` is past the end.
pub open spec fn inserted_after<T>(pre: Seq<T>, post: Seq<T>, index: usize, value: T) -> bool {
    if index < pre.len() {
        post == pre.insert(index + 1, value)
    } else {
        post == pre
    }
}

/// `post` is `pre` with `value` right in front of position `index`, or `pre`
/// itself where `index` is past the end.
pub open spec fn inserted_before<T>(pre: Seq<T>, post: Seq<T>, index: usize, value: T) -> bool {
    if index < pre.len() {
        post == pre.insert(index as int, value)
    } else {
        post == pre
    }
}

/// `text` is the printed form of a list of `len` values.
pub open spec fn is_listing(text: Seq<char>, len: nat) -> bool {
    exists|parts: Seq<Seq<char>>| parts.len() == len && text == #[trigger] chain_text(parts)
}

/// The texts in `parts`, each followed by the chain marker.
pub open spec fn chain_body(parts: Seq<Seq<char>>) -> Seq<char>
    decreases parts.len(),
{
    if parts.len() == 0 {
        Seq::empty()
    } else {
        chain_body(parts.drop_last()) + parts.last() + " -> "@
    }
}

/// The printed form of a list whose values read `parts`: an empty line, then
/// every value followed by the chain marker, then the end mark.
pub open spec fn chain_text(parts: Seq<Seq<char>>) -> Seq<char> {
    "\n"@ + chain_body(parts) + "None\n"@
}

/// The text that std's `{:?}` formatting writes for a string made of the
/// characters `text`: the characters between double quotes, with quotes,
/// backslashes and characters that do not print written as escapes.
pub uninterp spec fn debug_form(text: Seq<char>) -> Seq<char>;

/// The printed form of a list of strings.
pub open spec fn text_listing(values: Seq<String>) -> Seq<char> {
    chain_text(Seq::new(values.len(), |i: int| debug_form(values[i]@)))
}

/// The slots of `o` below position `m`, last first.
spec fn reversed_prefix(o: Seq<usize>, m: int) -> Seq<usize> {
    Seq::new(m as nat, |k: int| o[m - 1 - k])
}

/// The text that std's `format!` gives for `value` under `{:?}`, that is,
/// whatever the `Debug` impl of `T` writes. Nothing is claimed of it.
#[verifier::external_body]
fn debug_text<T: core::fmt::Debug>(value: &T) -> (text: String) {
    format!("{:?}", value)
}

/// The text that std's `format!` gives for a string under `{:?}`, by the
/// `Debug` impl of `str`. That impl reads nothing but the characters of the
/// string, so the text is named as a function of them; what it looks like
/// is not claimed here.
#[verifier::external_body]
fn debug_string(value: &String) -> (text: String)
    ensures
        text@ == debug_form(value@),
{
    format!("{:?}", value)
}

/// Joins the texts of a list's values into its printed form.
pub fn render_chain(parts: &Vec<String>) -> (text: String)
    ensures
        text@ == chain_text(Seq::new(parts@.len(), |i: int| parts@[i]@)),
{
    let ghost views = Seq::new(parts@.len(), |i: int| parts@[i]@);
    let mut text = String::new();
    text.append("\n");
    let mut i: usize = 0;
    while i < parts.len()
        invariant
            i <= parts@.len(),
            views == Seq::new(parts@.len(), |i: int| parts@[i]@),
            text@ == "\n"@ + chain_body(views.take(i as int)),
        decreases parts@.len() - i,
    {
        text.append(parts[i].as_str());
        text.append(" -> ");
        proof {
            let next = views.take(i + 1);
            assert(next.drop_last() =~= views.take(i as int));
            assert(next.last() == parts@[i as int]@);
            assert(text@ =~= "\n"@ + chain_body(next));
        }
        i += 1;
    }
    assert(views.take(i as int) =~= views);
    text.append("None\n");
    text
}

/// The slots visited by following `next` links from `from`, at most `limit` of them.
pub open spec fn forward_walk<T>(list: LinkedList<T>, from: Option<usize>, limit: nat) -> Seq<usize>
    decreases limit,
{
    match from {
        Some(slot) if limit > 0 => seq![slot] + forward_walk(
            list,
            list.next_of(slot),
            (limit - 1) as nat,
        ),
        _ => Seq::empty(),
    }
}

/// The slots visited by following `prev` links from `from`, at most `limit` of them.
pub open spec fn backward_walk<T>(list: LinkedList<T>, from: Option<usize>, limit: nat) -> Seq<
    usize,
>
    decreases limit,
{
    match from {
        Some(slot) if limit > 0 => seq![slot] + backward_walk(
            list,
            list.prev_of(slot),
            (limit - 1) as nat,
        ),
        _ => Seq::empty(),
    }
}

/// Overwrites the forward link of the node in slot `k`.
fn set_next<T>(slots: &mut Vec<Option<Node<T>>>, k: usize, link: Option<usize>)
    requires
        k < old(slots)@.len(),
        old(slots)@[k as int] is Some,
    ensures
        final(slots)@.len() == old(slots)@.len(),
        final(slots)@[k as int] is Some,
        final(slots)@[k as int].unwrap().value == old(slots)@[k as int].unwrap().value,
        final(slots)@[k as int].unwrap().prev == old(slots)@[k as int].unwrap().prev,
        final(slots)@[k as int].unwrap().next == link,
        forall|j: int|
            0 <= j < old(slots)@.len() && j != k ==> #[trigger] final(slots)@[j] == old(slots)@[j],
{
    match &mut slots[k] {
        Some(node) => {
            node.next = link;
        },
        None => {},
    }
}

/// Overwrites the backward link of the node in slot `k`.
fn set_prev<T>(slots: &mut Vec<Option<Node<T>>>, k: usize, link: Option<usize>)
    requires
        k < old(slots)@.len(),
        old(slots)@[k as int] is Some,
    ensures
        final(slots)@.len() == old(slots)@.len(),
        final(slots)@[k as int] is Some,
        final(slots)@[k as int].unwrap().value == old(slots)@[k as int].unwrap().value,
        final(slots)@[k as int].unwrap().next == old(slots)@[k as int].unwrap().next,
        final(slots)@[k as int].unwrap().prev == link,
        forall|j: int|
            0 <= j < old(slots)@.len() && j != k ==> #[trigger] final(slots)@[j] == old(slots)@[j],
{
    match &mut slots[k] {
        Some(node) => {
            node.prev = link;
        },
        None => {},
    }
}

/// Stores `node` in a slot that is not in use: the top of the free stack, or
/// a new slot at the end of the arena when the stack is empty.
fn claim_slot<T>(slots: &mut Vec<Option<Node<T>>>, free: &mut Vec<usize>, node: Node<T>) -> (slot:
    usize)
    requires
        forall|k: int|
            0 <= k < old(free)@.len() ==> (#[trigger] old(free)@[k]) < old(slots)@.len(),
    ensures
        slot < final(slots)@.len(),
        final(slots)@[slot as int] == Some(node),
        forall|j: int|
            0 <= j < old(slots)@.len() && j != slot ==> #[trigger] final(slots)@[j]
                == old(slots)@[j],
        old(free)@.len() > 0 ==> slot == old(free)@.last() && final(free)@ == old(free)@.drop_last()
            && final(slots)@.len() == old(slots)@.len(),
        old(free)@.len() == 0 ==> slot == old(slots)@.len() && final(free)@ == old(free)@
            && final(slots)@.len() == old(slots)@.len() + 1,
{
    match free.pop() {
        Some(slot) => {
            slots[slot] = Some(node);
            slot
        },
        None => {
            let slot: usize = slots.len();
            slots.push(Some(node));
            slot
        },
    }
}

/// `post` is the arena `pre` with one more node: it holds `value` in `slot`
/// and links to `before` and `after`, which link to it in turn. No other
/// link and no other value has changed.
spec fn spliced<T>(
    pre: Seq<Option<Node<T>>>,
    post: Seq<Option<Node<T>>>,
    before: Option<usize>,
    after: Option<usize>,
    slot: usize,
    value: T,
) -> bool {
    &&& pre.len() <= post.len()
    &&& slot < post.len()
    &&& post[slot as int] == Some(Node { value, next: after, prev: before })
    &&& forall|j: int|
        0 <= j < pre.len() && j != slot ==> ((#[trigger] post[j]) is Some <==> pre[j] is Some)
    &&& forall|j: int|
        0 <= j < pre.len() && j != slot && pre[j] is Some ==> {
            &&& (#[trigger] post[j]).unwrap().value == pre[j].unwrap().value
            &&& post[j].unwrap().next == (if before is Some && before.unwrap() == j {
                Some(slot)
            } else {
                pre[j].unwrap().next
            })
            &&& post[j].unwrap().prev == (if after is Some && after.unwrap() == j {
                Some(slot)
            } else {
                pre[j].unwrap().prev
            })
        }
}

/// Stores a new node holding `value` in a slot that is not in use and links
/// it with its neighbours `before` and `after`.
fn splice_in<T>(
    slots: &mut Vec<Option<Node<T>>>,
    free: &mut Vec<usize>,
    before: Option<usize>,
    after: Option<usize>,
    value: T,
) -> (slot: usize)
    requires
        forall|k: int|
            0 <= k < old(free)@.len() ==> (#[trigger] old(free)@[k]) < old(slots)@.len()
                && old(slots)@[old(free)@[k] as int] is None,
        forall|k: int, l: int|
            0 <= k < l < old(free)@.len() ==> old(free)@[k] != old(free)@[l],
        before matches Some(b) ==> b < old(slots)@.len() && old(slots)@[b as int] is Some,
        after matches Some(a) ==> a < old(slots)@.len() && old(slots)@[a as int] is Some,
    ensures
        spliced(old(slots)@, final(slots)@, before, after, slot, value),
        old(slots)@.len() <= slot || old(slots)@[slot as int] is None,
        final(slots)@.len() - final(free)@.len() == old(slots)@.len() - old(free)@.len() + 1,
        final(free)@.len() <= old(free)@.len(),
        forall|k: int|
            0 <= k < final(free)@.len() ==> #[trigger] final(free)@[k] == old(free)@[k]
                && final(free)@[k] != slot,
{
    let slot = claim_slot(slots, free, Node { value, next: after, prev: before });
    match before {
        Some(b) => {
            set_next(slots, b, Some(slot));
        },
        None => {},
    }
    match after {
        Some(a) => {
            set_prev(slots, a, Some(slot));
        },
        None => {},
    }
    slot
}

/// `post` is the arena `pre` without the node in `slot`, whose neighbours
/// `before` and `after` now link to each other. No other link and no value
/// has changed.
spec fn unspliced<T>(
    pre: Seq<Option<Node<T>>>,
    post: Seq<Option<Node<T>>>,
    before: Option<usize>,
    after: Option<usize>,
    slot: usize,
) -> bool {
    &&& pre.len() == post.len()
    &&& slot < post.len()
    &&& post[slot as int] is None
    &&& forall|j: int|
        0 <= j < pre.len() && j != slot ==> ((#[trigger] post[j]) is Some <==> pre[j] is Some)
    &&& forall|j: int|
        0 <= j < pre.len() && j != slot && pre[j] is Some ==> {
            &&& (#[trigger] post[j]).unwrap().value == pre[j].unwrap().value
            &&& post[j].unwrap().next == (if before is Some && before.unwrap() == j {
                after
            } else {
                pre[j].unwrap().next
            })
            &&& post[j].unwrap().prev == (if after is Some && after.unwrap() == j {
                before
            } else {
                pre[j].unwrap().prev
            })
        }
}

/// Empties `slot` and links the neighbours of the node that it held to each
/// other. Answers with those neighbours.
fn splice_out<T>(slots: &mut Vec<Option<Node<T>>>, slot: usize) -> (neighbours: (
    Option<usize>,
    Option<usize>,
))
    requires
        slot < old(slots)@.len(),
        old(slots)@[slot as int] matches Some(node) && (node.prev matches Some(b) ==> b != slot
            && b < old(slots)@.len() && old(slots)@[b as int] is Some) && (node.next matches Some(a)
            ==> a != slot && a < old(slots)@.len() && old(slots)@[a as int] is Some),
    ensures
        neighbours.0 == old(slots)@[slot as int].unwrap().prev,
        neighbours.1 == old(slots)@[slot as int].unwrap().next,
        unspliced(old(slots)@, final(slots)@, neighbours.0, neighbours.1, slot),
{
    let (before, after) = match slots[slot].take() {
        Some(node) => (node.prev, node.next),
        None => (None, None),
    };
    match before {
        Some(b) => {
            set_next(slots, b, after);
        },
        None => {},
    }
    match after {
        Some(a) => {
            set_prev(slots, a, before);
        },
        None => {},
    }
    (before, after)
}

impl<T> LinkedList<T> {
    /// The values of the list, from head to tail.
    pub closed spec fn view(&self) -> Seq<T> {
        Seq::new(self.order@.len(), |i: int| self.slots@[self.order@[i] as int].unwrap().value)
    }

    /// The slots of the nodes of the list, from head to tail.
    pub closed spec fn chain(&self) -> Seq<usize> {
        self.order@
    }

    /// The slot of the first node.
    pub closed spec fn head_of(&self) -> Option<usize> {
        self.head
    }

    /// The slot of the last node.
    pub closed spec fn tail_of(&self) -> Option<usize> {
        self.tail
    }

    /// The node held in `slot`, if the slot is in use.
    pub closed spec fn node_of(&self, slot: usize) -> Option<Node<T>> {
        if slot < self.slots@.len() {
            self.slots@[slot as int]
        } else {
            None
        }
    }

    /// The forward link of the node in `slot`.
    pub open spec fn next_of(&self, slot: usize) -> Option<usize> {
        match self.node_of(slot) {
            Some(node) => node.next,
            None => None,
        }
    }

    /// The backward link of the node in `slot`.
    pub open spec fn prev_of(&self, slot: usize) -> Option<usize> {
        match self.node_of(slot) {
            Some(node) => node.prev,
            None => None,
        }
    }

    /// The list's invariant: the chain is a simple path through the arena,
    /// linked consistently in both directions, with `head` and `tail` at its
    /// ends, and every slot is either on the chain or on the free stack.
    pub closed spec fn wf(&self) -> bool {
        let o = self.order@;
        let n = o.len();
        &&& n + self.free@.len() == self.slots@.len()
        &&& forall|i: int|
            0 <= i < n ==> (#[trigger] o[i]) < self.slots@.len() && self.slots@[o[i] as int] is Some
        &&& forall|i: int, j: int| 0 <= i < j < n ==> o[i] != o[j]
        &&& forall|i: int, j: int|
            0 <= i && j == i + 1 && j < n ==> self.slots@[(#[trigger] o[i]) as int].unwrap().next
                == Some(#[trigger] o[j])
        &&& forall|i: int, j: int|
            0 <= i && j == i + 1 && j < n ==> self.slots@[(#[trigger] o[j]) as int].unwrap().prev
                == Some(#[trigger] o[i])
        &&& n > 0 ==> self.slots@[o[n - 1] as int].unwrap().next is None
        &&& n > 0 ==> self.slots@[o[0] as int].unwrap().prev is None
        &&& self.head == (if n > 0 {
            Some(o[0])
        } else {
            None
        })
        &&& self.tail == (if n > 0 {
            Some(o[n - 1])
        } else {
            None
        })
        &&& forall|k: int|
            0 <= k < self.free@.len() ==> (#[trigger] self.free@[k]) < self.slots@.len()
                && self.slots@[self.free@[k] as int] is None
        &&& forall|k: int, l: int| 0 <= k < l < self.free@.len() ==> self.free@[k] != self.free@[l]
    }

    /// An empty list.
    pub fn new() -> (list: Self)
        ensures
            list.wf(),
            list@ == Seq::<T>::empty(),
            list.chain() == Seq::<usize>::empty(),
    {
        let list = LinkedList {
            slots: Vec::new(),
            free: Vec::new(),
            head: None,
            tail: None,
            order: Ghost(Seq::empty()),
        };
        assert(list@ =~= Seq::<T>::empty());
        list
    }

    /// The slot of the node at position `index`, found by walking from the head.
    fn slot_at(&self, index: usize) -> (found: Option<usize>)
        requires
            self.wf(),
        ensures
            index < self@.len() ==> found == Some(self.chain()[index as int]),
            index >= self@.len() ==> found is None,
    {
        let mut current: Option<usize> = self.head;
        let mut i: usize = 0;
        loop
            invariant
                self.wf(),
                i <= index,
                i <= self.order@.len(),
                current == (if i < self.order@.len() {
                    Some(self.order@[i as int])
                } else {
                    None
                }),
            decreases self.order@.len() - i,
        {
            match current {
                None => {
                    return None;
                },
                Some(slot) => {
                    if i == index {
                        return Some(slot);
                    }
                    i += 1;
                    current = match &self.slots[slot] {
                        Some(node) => node.next,
                        None => None,
                    };
                },
            }
        }
    }

    /// Once a new node has been spliced into the arena between the
    /// neighbours of position `pos`, the list with that node in its chain is
    /// well-formed again and holds the new value at `pos`.
    proof fn lemma_spliced(pre: Self, post: Self, pos: int, slot: usize, value: T)
        requires
            pre.wf(),
            0 <= pos <= pre.order@.len(),
            post.order@ == pre.order@.insert(pos, slot),
            spliced(
                pre.slots@,
                post.slots@,
                if pos > 0 {
                    Some(pre.order@[pos - 1])
                } else {
                    None
                },
                if pos < pre.order@.len() {
                    Some(pre.order@[pos])
                } else {
                    None
                },
                slot,
                value,
            ),
            pre.slots@.len() <= slot || pre.slots@[slot as int] is None,
            post.head == (if pos == 0 {
                Some(slot)
            } else {
                pre.head
            }),
            post.tail == (if pos == pre.order@.len() {
                Some(slot)
            } else {
                pre.tail
            }),
            post.order@.len() + post.free@.len() == post.slots@.len(),
            post.free@.len() <= pre.free@.len(),
            forall|k: int|
                0 <= k < post.free@.len() ==> #[trigger] post.free@[k] == pre.free@[k]
                    && post.free@[k] != slot,
        ensures
            post.wf(),
            post@ == pre@.insert(pos, value),
    {
        let o = pre.order@;
        let n = o.len() as int;
        let o2 = post.order@;
        assert(o2.len() == n + 1);
        assert forall|i: int| 0 <= i < n + 1 implies #[trigger] o2[i] == (if i < pos {
            o[i]
        } else if i == pos {
            slot
        } else {
            o[i - 1]
        }) by {}
        assert forall|i: int| 0 <= i < n implies #[trigger] o[i] != slot && post.slots@[o[i] as int]
            is Some by {}
        assert forall|i: int| 0 <= i < n + 1 implies (#[trigger] o2[i]) < post.slots@.len()
            && post.slots@[o2[i] as int] is Some by {
            if i < pos {
                assert(o2[i] == o[i]);
            } else if i > pos {
                assert(o2[i] == o[i - 1]);
            }
        }
        assert forall|i: int, j: int| 0 <= i < j < n + 1 implies o2[i] != o2[j] by {
            let a = if i < pos { i } else { i - 1 };
            let b = if j < pos { j } else { j - 1 };
            if i != pos && j != pos {
                assert(o2[i] == o[a] && o2[j] == o[b]);
            } else if i == pos {
                assert(o2[j] == o[b]);
            } else {
                assert(o2[i] == o[a]);
            }
        }
        assert forall|i: int, j: int| 0 <= i && j == i + 1 && j < n + 1 implies post.slots@[(
        #[trigger] o2[i]) as int].unwrap().next == Some(#[trigger] o2[j]) by {
            if j < pos {
                assert(o2[i] == o[i] && o2[j] == o[j]);
                assert(o[i] != o[pos - 1]);
            } else if j == pos {
                assert(o2[i] == o[pos - 1]);
            } else if i == pos {
                assert(o2[j] == o[pos]);
            } else {
                assert(o2[i] == o[i - 1] && o2[j] == o[j - 1]);
                assert(pos > 0 ==> o[i - 1] != o[pos - 1]);
            }
        }
        assert forall|i: int, j: int| 0 <= i && j == i + 1 && j < n + 1 implies post.slots@[(
        #[trigger] o2[j]) as int].unwrap().prev == Some(#[trigger] o2[i]) by {
            if j < pos {
                assert(o2[i] == o[i] && o2[j] == o[j]);
                assert(pos < n ==> o[j] != o[pos]);
            } else if j == pos {
                assert(o2[i] == o[pos - 1]);
            } else if i == pos {
                assert(o2[j] == o[pos]);
            } else {
                assert(o2[i] == o[i - 1] && o2[j] == o[j - 1]);
                assert(o[j - 1] != o[pos]);
            }
        }
        assert(post.slots@[o2[n] as int].unwrap().next is None) by {
            if pos < n {
                assert(o2[n] == o[n - 1]);
            }
        }
        assert(post.slots@[o2[0] as int].unwrap().prev is None) by {
            if pos > 0 {
                assert(o2[0] == o[0]);
            }
        }
        assert(post.head == Some(o2[0]));
        assert(post.tail == Some(o2[n]));
        assert forall|i: int| 0 <= i < n + 1 implies #[trigger] post@[i] == pre@.insert(
            pos,
            value,
        )[i] by {
            if i < pos {
                assert(o2[i] == o[i]);
            } else if i > pos {
                assert(o2[i] == o[i - 1]);
            }
        }
        assert(post@ =~= pre@.insert(pos, value));
    }

    /// Puts a new node holding `value` at position `pos`, between the nodes
    /// `before` and `after`, which are the neighbours of that position.
    fn link_between(
        &mut self,
        before: Option<usize>,
        after: Option<usize>,
        value: T,
        Ghost(pos): Ghost<int>,
    )
        requires
            old(self).wf(),
            0 <= pos <= old(self).chain().len(),
            before == (if pos > 0 {
                Some(old(self).chain()[pos - 1])
            } else {
                None
            }),
            after == (if pos < old(self).chain().len() {
                Some(old(self).chain()[pos])
            } else {
                None
            }),
        ensures
            final(self).wf(),
            final(self)@ == old(self)@.insert(pos, value),
            final(self).chain() == old(self).chain().insert(pos, final(self).chain()[pos]),
            old(self).node_of(final(self).chain()[pos]) is None,
    {
        let slot = splice_in(&mut self.slots, &mut self.free, before, after, value);
        if before.is_none() {
            self.head = Some(slot);
        }
        if after.is_none() {
            self.tail = Some(slot);
        }
        proof {
            self.order = Ghost(old(self).order@.insert(pos, slot));
            Self::lemma_spliced(*old(self), *self, pos, slot, value);
        }
    }

    /// Once the node at position `pos` has been taken out of the arena and
    /// its neighbours joined, the list without that node in its chain is
    /// well-formed again and holds the values that are left.
    proof fn lemma_unspliced(pre: Self, post: Self, pos: int)
        requires
            pre.wf(),
            0 <= pos < pre.order@.len(),
            post.order@ == pre.order@.remove(pos),
            unspliced(
                pre.slots@,
                post.slots@,
                if pos > 0 {
                    Some(pre.order@[pos - 1])
                } else {
                    None
                },
                if pos + 1 < pre.order@.len() {
                    Some(pre.order@[pos + 1])
                } else {
                    None
                },
                pre.order@[pos],
            ),
            post.head == (if pos == 0 {
                if pos + 1 < pre.order@.len() {
                    Some(pre.order@[pos + 1])
                } else {
                    None
                }
            } else {
                pre.head
            }),
            post.tail == (if pos + 1 == pre.order@.len() {
                if pos > 0 {
                    Some(pre.order@[pos - 1])
                } else {
                    None
                }
            } else {
                pre.tail
            }),
            post.free@ == pre.free@.push(pre.order@[pos]),
        ensures
            post.wf(),
            post@ == pre@.remove(pos),
    {
        let o = pre.order@;
        let n = o.len() as int;
        let o2 = post.order@;
        let slot = o[pos];
        assert(o2.len() == n - 1);
        assert forall|i: int| 0 <= i < n - 1 implies #[trigger] o2[i] == (if i < pos {
            o[i]
        } else {
            o[i + 1]
        }) by {}
        assert forall|i: int| 0 <= i < n && i != pos implies #[trigger] o[i] != slot
            && post.slots@[o[i] as int] is Some by {}
        assert forall|i: int| 0 <= i < n - 1 implies (#[trigger] o2[i]) < post.slots@.len()
            && post.slots@[o2[i] as int] is Some by {
            if i < pos {
                assert(o2[i] == o[i]);
            } else {
                assert(o2[i] == o[i + 1]);
            }
        }
        assert forall|i: int, j: int| 0 <= i < j < n - 1 implies o2[i] != o2[j] by {
            let a = if i < pos { i } else { i + 1 };
            let b = if j < pos { j } else { j + 1 };
            assert(o2[i] == o[a] && o2[j] == o[b]);
        }
        assert forall|i: int, j: int| 0 <= i && j == i + 1 && j < n - 1 implies post.slots@[(
        #[trigger] o2[i]) as int].unwrap().next == Some(#[trigger] o2[j]) by {
            if j < pos {
                assert(o2[i] == o[i] && o2[j] == o[j]);
                assert(o[i] != o[pos - 1]);
            } else if j == pos {
                assert(o2[i] == o[pos - 1] && o2[j] == o[pos + 1]);
            } else {
                assert(o2[i] == o[i + 1] && o2[j] == o[j + 1]);
                assert(pos > 0 ==> o[i + 1] != o[pos - 1]);
            }
        }
        assert forall|i: int, j: int| 0 <= i && j == i + 1 && j < n - 1 implies post.slots@[(
        #[trigger] o2[j]) as int].unwrap().prev == Some(#[trigger] o2[i]) by {
            if j < pos {
                assert(o2[i] == o[i] && o2[j] == o[j]);
                assert(pos + 1 < n ==> o[j] != o[pos + 1]);
            } else if j == pos {
                assert(o2[i] == o[pos - 1] && o2[j] == o[pos + 1]);
            } else {
                assert(o2[i] == o[i + 1] && o2[j] == o[j + 1]);
                assert(o[j + 1] != o[pos + 1]);
            }
        }
        if n - 1 > 0 {
            assert(post.slots@[o2[n - 2] as int].unwrap().next is None) by {
                if pos + 1 < n {
                    assert(o2[n - 2] == o[n - 1]);
                    assert(pos > 0 ==> o[n - 1] != o[pos - 1]);
                } else {
                    assert(o2[n - 2] == o[pos - 1]);
                }
            }
            assert(post.slots@[o2[0] as int].unwrap().prev is None) by {
                if pos > 0 {
                    assert(o2[0] == o[0]);
                    assert(pos + 1 < n ==> o[0] != o[pos + 1]);
                } else {
                    assert(o2[0] == o[1]);
                }
            }
            assert(post.head == Some(o2[0]));
            assert(post.tail == Some(o2[n - 2]));
        }
        assert forall|k: int| 0 <= k < post.free@.len() implies (#[trigger] post.free@[k])
            < post.slots@.len() && post.slots@[post.free@[k] as int] is None by {
            if k < pre.free@.len() {
                assert(post.free@[k] == pre.free@[k]);
            }
        }
        assert forall|k: int, l: int| 0 <= k < l < post.free@.len() implies post.free@[k]
            != post.free@[l] by {
            assert(post.free@[k] == pre.free@[k]);
            if l < pre.free@.len() {
                assert(post.free@[l] == pre.free@[l]);
            }
        }
        assert forall|i: int| 0 <= i < n - 1 implies #[trigger] post@[i] == pre@.remove(pos)[i] by {
            if i < pos {
                assert(o2[i] == o[i]);
            } else {
                assert(o2[i] == o[i + 1]);
            }
        }
        assert(post@ =~= pre@.remove(pos));
    }

    /// Takes the node in `slot`, which stands at position `pos`, out of the
    /// chain and joins its two neighbours.
    fn unlink(&mut self, slot: usize, Ghost(pos): Ghost<int>)
        requires
            old(self).wf(),
            0 <= pos < old(self).chain().len(),
            slot == old(self).chain()[pos],
        ensures
            final(self).wf(),
            final(self)@ == old(self)@.remove(pos),
            final(self).chain() == old(self).chain().remove(pos),
            final(self).node_of(slot) is None,
    {
        let ghost o = self.order@;
        let ghost n = o.len() as int;
        assert(pos > 0 ==> o[pos - 1] != slot && self.slots@[slot as int].unwrap().prev == Some(
            o[pos - 1],
        ));
        assert(pos + 1 < n ==> o[pos + 1] != slot && self.slots@[slot as int].unwrap().next
            == Some(o[pos + 1]));
        let (before, after) = splice_out(&mut self.slots, slot);
        if before.is_none() {
            self.head = after;
        }
        if after.is_none() {
            self.tail = before;
        }
        self.free.push(slot);
        proof {
            self.order = Ghost(o.remove(pos));
            Self::lemma_unspliced(*old(self), *self, pos);
        }
    }

    /// Adds `value` at the end of the list.
    pub fn append(&mut self, value: T)
        requires
            old(self).wf(),
        ensures
            final(self).wf(),
            final(self)@ == old(self)@.push(value),
            final(self).chain().drop_last() == old(self).chain(),
            old(self).node_of(final(self).chain().last()) is None,
    {
        let ghost n = self.order@.len() as int;
        let before = self.tail;
        self.link_between(before, None, value, Ghost(n));
        assert(old(self)@.insert(n, value) =~= old(self)@.push(value));
        assert(self.chain().drop_last() =~= old(self).chain());
    }

    /// Removes the node at position `index`. An `index` past the end leaves
    /// the list as it is.
    pub fn delete_index(&mut self, index: usize)
        requires
            old(self).wf(),
        ensures
            final(self).wf(),
            index_deleted(old(self)@, final(self)@, index),
            index < old(self)@.len() ==> final(self).chain() == old(self).chain().remove(
                index as int,
            ) && final(self).node_of(old(self).chain()[index as int]) is None,
            index >= old(self)@.len() ==> final(self).chain() == old(self).chain(),
    {
        match self.slot_at(index) {
            Some(slot) => {
                self.unlink(slot, Ghost(index as int));
            },
            None => {},
        }
    }

    /// Inserts `value` right behind the node at position `index`. An `index`
    /// past the end leaves the list as it is.
    pub fn append_after_index(&mut self, index: usize, value: T)
        requires
            old(self).wf(),
        ensures
            final(self).wf(),
            inserted_after(old(self)@, final(self)@, index, value),
            index < old(self)@.len() ==> final(self).chain().remove(index + 1) == old(self).chain()
                && old(self).node_of(final(self).chain()[index + 1]) is None,
            index >= old(self)@.len() ==> final(self).chain() == old(self).chain(),
    {
        match self.slot_at(index) {
            Some(slot) => {
                let after = match &self.slots[slot] {
                    Some(node) => node.next,
                    None => None,
                };
                let ghost o = self.order@;
                assert(index + 1 < o.len() ==> after == Some(o[index + 1]));
                self.link_between(Some(slot), after, value, Ghost(index + 1));
                assert(self.chain().remove(index + 1) =~= old(self).chain());
            },
            None => {},
        }
    }

    /// Inserts `value` right in front of the node at position `index`. An
    /// `index` past the end leaves the list as it is.
    pub fn append_before_index(&mut self, index: usize, value: T)
        requires
            old(self).wf(),
        ensures
            final(self).wf(),
            inserted_before(old(self)@, final(self)@, index, value),
            index < old(self)@.len() ==> final(self).chain().remove(index as int) == old(self).chain()
                && old(self).node_of(final(self).chain()[index as int]) is None,
            index >= old(self)@.len() ==> final(self).chain() == old(self).chain(),
    {
        match self.slot_at(index) {
            Some(slot) => {
                let before = match &self.slots[slot] {
                    Some(node) => node.prev,
                    None => None,
                };
                let ghost o = self.order@;
                assert(index > 0 ==> before == Some(o[index - 1]));
                self.link_between(before, Some(slot), value, Ghost(index as int));
                assert(self.chain().remove(index as int) =~= old(self).chain());
            },
            None => {},
        }
    }

    /// The slot of the first node, or `None` for an empty list.
    pub fn head(&self) -> (slot: Option<usize>)
        ensures
            slot == self.head_of(),
    {
        self.head
    }

    /// The slot of the last node, or `None` for an empty list.
    pub fn tail(&self) -> (slot: Option<usize>)
        ensures
            slot == self.tail_of(),
    {
        self.tail
    }

    /// The slot that the node in `slot` links forward to. `None` for the
    /// last node and for a slot that holds no node.
    pub fn next(&self, slot: usize) -> (link: Option<usize>)
        ensures
            link == self.next_of(slot),
    {
        if slot < self.slots.len() {
            match &self.slots[slot] {
                Some(node) => node.next,
                None => None,
            }
        } else {
            None
        }
    }

    /// The slot that the node in `slot` links back to. `None` for the first
    /// node and for a slot that holds no node.
    pub fn prev(&self, slot: usize) -> (link: Option<usize>)
        ensures
            link == self.prev_of(slot),
    {
        if slot < self.slots.len() {
            match &self.slots[slot] {
                Some(node) => node.prev,
                None => None,
            }
        } else {
            None
        }
    }
}

impl<T: Clone> LinkedList<T> {
    /// A copy of the value at position `index`, or `None` when `index` is
    /// past the end.
    pub fn find_value(&self, index: usize) -> (found: Option<T>)
        requires
            self.wf(),
        ensures
            value_found(self@, index, found),
    {
        match self.slot_at(index) {
            Some(slot) => match &self.slots[slot] {
                Some(node) => Some(node.value.clone()),
                None => None,
            },
            None => None,
        }
    }
}

impl<T: PartialEq> LinkedList<T> {
    /// The position and the slot of the first node whose value equals `value`.
    fn locate(&self, value: &T) -> (found: Option<(usize, usize)>)
        requires
            self.wf(),
        ensures
            match found {
                Some((index, slot)) => is_first_match(self@, *value, index as int) && slot
                    == self.chain()[index as int],
                None => is_absent(self@, *value),
            },
    {
        let in_use: usize = self.slots.len() - self.free.len();
        let mut current: Option<usize> = self.head;
        let mut i: usize = 0;
        loop
            invariant
                self.wf(),
                in_use == self.order@.len(),
                i <= self.order@.len(),
                current == (if i < self.order@.len() {
                    Some(self.order@[i as int])
                } else {
                    None
                }),
                forall|j: int| 0 <= j < i ==> unequal(#[trigger] self@[j], *value),
            decreases self.order@.len() - i,
        {
            match current {
                None => {
                    return None;
                },
                Some(slot) => {
                    match &self.slots[slot] {
                        Some(node) => {
                            assert(node.value == self@[i as int]);
                            if node.value == *value {
                                return Some((i, slot));
                            }
                            current = node.next;
                        },
                        None => {
                            current = None;
                        },
                    }
                    i += 1;
                },
            }
        }
    }

    /// The position of the first value equal to `value`, or `None` when no
    /// value of the list equals it. Values are compared with `T`'s `==`.
    pub fn find_index(&self, value: &T) -> (found: Option<usize>)
        requires
            self.wf(),
        ensures
            index_found(self@, *value, found),
    {
        match self.locate(value) {
            Some((index, _)) => Some(index),
            None => None,
        }
    }

    /// Removes the first node whose value equals `value`. Where no value
    /// equals it the list stays as it is. The other nodes keep their slots.
    pub fn delete_val(&mut self, value: T)
        requires
            old(self).wf(),
        ensures
            final(self).wf(),
            value_deleted(old(self)@, final(self)@, value),
            ({
                ||| exists|i: int| #[trigger]
                    is_first_match(old(self)@, value, i) && final(self)@ == old(self)@.remove(i)
                        && final(self).chain() == old(self).chain().remove(i)
                        && final(self).node_of(old(self).chain()[i]) is None
                ||| is_absent(old(self)@, value) && final(self)@ == old(self)@
                    && final(self).chain() == old(self).chain()
            }),
    {
        match self.locate(&value) {
            Some((index, slot)) => {
                self.unlink(slot, Ghost(index as int));
            },
            None => {},
        }
    }

    /// A search has one answer: where `T`'s `==` is decided, no two
    /// positions are both the first match, and a first match rules out
    /// that the value is absent.
    pub proof fn lemma_first_match_is_unique(s: Seq<T>, v: T, i: int, j: int)
        requires
            eq_is_decided::<T>(),
            is_first_match(s, v, i),
        ensures
            is_first_match(s, v, j) ==> i == j,
            !is_absent(s, v),
    {
        if is_first_match(s, v, j) {
            if i < j {
                assert(unequal(s[i], v));
            } else if j < i {
                assert(unequal(s[j], v));
            }
        }
        if is_absent(s, v) {
            assert(unequal(s[i], v));
        }
    }

    /// For a type whose `==` has a meaning in contracts, `equal` and
    /// `unequal` follow that meaning, and `==` is decided.
    pub proof fn lemma_equal_follows_eq_spec(a: T, b: T)
        requires
            T::obeys_eq_spec(),
        ensures
            equal(a, b) ==> a.eq_spec(&b),
            unequal(a, b) ==> !a.eq_spec(&b),
            eq_is_decided::<T>(),
    {
    }
}

impl<T: core::fmt::Debug> LinkedList<T> {
    /// The printed form of the list: an empty line, then the values from head
    /// to tail, each in its `Debug` form and followed by ` -> `, then `None`
    /// and a line end. The list is only read.
    pub fn print_list(&self) -> (text: String)
        requires
            self.wf(),
        ensures
            is_listing(text@, self@.len()),
    {
        let mut parts: Vec<String> = Vec::new();
        let mut current: Option<usize> = self.head;
        let ghost mut i: int = 0;
        loop
            invariant
                self.wf(),
                0 <= i <= self.order@.len(),
                parts@.len() == i,
                current == (if i < self.order@.len() {
                    Some(self.order@[i])
                } else {
                    None
                }),
            decreases self.order@.len() - i,
        {
            match current {
                None => {
                    let text = render_chain(&parts);
                    assert(text@ == chain_text(Seq::new(parts@.len(), |i: int| parts@[i]@)));
                    return text;
                },
                Some(slot) => {
                    match &self.slots[slot] {
                        Some(node) => {
                            parts.push(debug_text(&node.value));
                            current = node.next;
                        },
                        None => {
                            current = None;
                        },
                    }
                    proof {
                        i = i + 1;
                    }
                },
            }
        }
    }
}

impl LinkedList<String> {
    /// The printed form of a list of strings: an empty line, then the
    /// values from head to tail, each in its `Debug` form and followed by
    /// ` -> `, then `None` and a line end. The list is only read, and the
    /// text depends on nothing but its values.
    pub fn print_texts(&self) -> (text: String)
        requires
            self.wf(),
        ensures
            text@ == text_listing(self@),
            is_listing(text@, self@.len()),
    {
        let mut parts: Vec<String> = Vec::new();
        let mut current: Option<usize> = self.head;
        let ghost mut i: int = 0;
        loop
            invariant
                self.wf(),
                0 <= i <= self.order@.len(),
                parts@.len() == i,
                forall|k: int| 0 <= k < i ==> (#[trigger] parts@[k])@ == debug_form(self@[k]@),
                current == (if i < self.order@.len() {
                    Some(self.order@[i])
                } else {
                    None
                }),
            decreases self.order@.len() - i,
        {
            match current {
                None => {
                    let text = render_chain(&parts);
                    assert(Seq::new(parts@.len(), |k: int| parts@[k]@) =~= Seq::new(
                        self@.len(),
                        |k: int| debug_form(self@[k]@),
                    ));
                    return text;
                },
                Some(slot) => {
                    match &self.slots[slot] {
                        Some(node) => {
                            assert(node.value == self@[i]);
                            parts.push(debug_string(&node.value));
                            current = node.next;
                        },
                        None => {
                            current = None;
                        },
                    }
                    proof {
                        i = i + 1;
                    }
                },
            }
        }
    }

    /// Printing twice gives the same text: whatever two calls of
    /// `print_texts` answer for one list, with nothing changed in between,
    /// is one and the same text.
    pub proof fn lemma_print_repeats(self, first: Seq<char>, second: Seq<char>)
        requires
            self.wf(),
            first == text_listing(self@),
            second == text_listing(self@),
        ensures
            first == second,
    {
    }
}

impl<T> LinkedList<T> {
    /// A well-formed list is a simple chain: it has as many nodes as values
    /// and no slot occurs twice; `head` and `tail` are absent exactly when
    /// the list is empty and otherwise name the two ends; the node at each
    /// position holds that position's value, links forward to the node at
    /// the next position and back to the one before, and the ends link to
    /// nothing; and whatever a node links to links back to it.
    pub proof fn lemma_chain_invariants(self)
        requires
            self.wf(),
        ensures
            self.chain().len() == self@.len(),
            self.chain().no_duplicates(),
            self.head_of() is None <==> self@.len() == 0,
            self.tail_of() is None <==> self@.len() == 0,
            self@.len() > 0 ==> self.head_of() == Some(self.chain()[0]) && self.tail_of() == Some(
                self.chain().last(),
            ),
            self@.len() > 0 ==> self.prev_of(self.chain()[0]) is None && self.next_of(
                self.chain().last(),
            ) is None,
            forall|i: int|
                0 <= i < self.chain().len() ==> (#[trigger] self.node_of(self.chain()[i]))
                    is Some && self.node_of(self.chain()[i]).unwrap().value == self@[i],
            forall|i: int|
                0 <= i < self.chain().len() ==> #[trigger] self.next_of(self.chain()[i]) == (if i
                    + 1 < self.chain().len() {
                    Some(self.chain()[i + 1])
                } else {
                    None
                }),
            forall|i: int|
                0 <= i < self.chain().len() ==> #[trigger] self.prev_of(self.chain()[i]) == (if i
                    > 0 {
                    Some(self.chain()[i - 1])
                } else {
                    None
                }),
            forall|i: int, m: usize|
                0 <= i < self.chain().len() && #[trigger] self.next_of(self.chain()[i]) == Some(m)
                    ==> #[trigger] self.prev_of(m) == Some(self.chain()[i]),
            forall|i: int, m: usize|
                0 <= i < self.chain().len() && #[trigger] self.prev_of(self.chain()[i]) == Some(m)
                    ==> #[trigger] self.next_of(m) == Some(self.chain()[i]),
    {
        let o = self.order@;
        let n = o.len() as int;
        assert forall|i: int| 0 <= i < n implies #[trigger] self.next_of(o[i]) == (if i + 1 < n {
            Some(o[i + 1])
        } else {
            None
        }) by {
            if i + 1 < n {
                assert(self.slots@[o[i] as int].unwrap().next == Some(o[i + 1]));
            }
        }
        assert forall|i: int| 0 <= i < n implies #[trigger] self.prev_of(o[i]) == (if i > 0 {
            Some(o[i - 1])
        } else {
            None
        }) by {
            if i > 0 {
                assert(self.slots@[o[i] as int].unwrap().prev == Some(o[i - 1]));
            }
        }
        assert forall|i: int, m: usize|
            0 <= i < n && #[trigger] self.next_of(o[i]) == Some(m) implies #[trigger] self.prev_of(
            m,
        ) == Some(o[i]) by {
            assert(m == o[i + 1]);
            assert(self.prev_of(o[i + 1]) == Some(o[i]));
        }
        assert forall|i: int, m: usize|
            0 <= i < n && #[trigger] self.prev_of(o[i]) == Some(m) implies #[trigger] self.next_of(
            m,
        ) == Some(o[i]) by {
            assert(m == o[i - 1]);
            assert(self.next_of(o[i - 1]) == Some(o[i]));
        }
    }

    /// Following `next` links from the node at position `i` visits the rest
    /// of the chain in order.
    proof fn lemma_forward_from(self, i: int, limit: nat)
        requires
            self.wf(),
            0 <= i <= self.chain().len(),
            limit >= self.chain().len() - i,
        ensures
            forward_walk(
                self,
                if i < self.chain().len() {
                    Some(self.chain()[i])
                } else {
                    None
                },
                limit,
            ) == self.chain().subrange(i, self.chain().len() as int),
        decreases self.chain().len() - i,
    {
        let o = self.order@;
        let n = o.len() as int;
        if i < n {
            self.lemma_chain_invariants();
            assert(self.next_of(o[i]) == (if i + 1 < n {
                Some(o[i + 1])
            } else {
                None
            }));
            self.lemma_forward_from(i + 1, (limit - 1) as nat);
            assert(seq![o[i]] + o.subrange(i + 1, n) =~= o.subrange(i, n));
        } else {
            assert(o.subrange(i, n) =~= Seq::<usize>::empty());
        }
    }

    /// Following `prev` links from the node at position `m - 1` visits the
    /// first `m` nodes of the chain, last first.
    proof fn lemma_backward_from(self, m: int, limit: nat)
        requires
            self.wf(),
            0 <= m <= self.chain().len(),
            limit >= m,
        ensures
            backward_walk(
                self,
                if m > 0 {
                    Some(self.chain()[m - 1])
                } else {
                    None
                },
                limit,
            ) == reversed_prefix(self.chain(), m),
        decreases m,
    {
        let o = self.order@;
        if m > 0 {
            self.lemma_chain_invariants();
            assert(self.prev_of(o[m - 1]) == (if m - 1 > 0 {
                Some(o[m - 2])
            } else {
                None
            }));
            self.lemma_backward_from(m - 1, (limit - 1) as nat);
            assert(seq![o[m - 1]] + reversed_prefix(o, m - 1) =~= reversed_prefix(o, m));
        } else {
            assert(reversed_prefix(o, m) =~= Seq::<usize>::empty());
        }
    }

    /// Walking forward from the head visits exactly the chain, walking
    /// backward from the tail visits the same nodes in reverse, and so both
    /// walks have the same length: the number of values in the list.
    pub proof fn lemma_traversal_symmetry(self, limit: nat)
        requires
            self.wf(),
            limit >= self@.len(),
        ensures
            forward_walk(self, self.head_of(), limit) == self.chain(),
            backward_walk(self, self.tail_of(), limit) == self.chain().reverse(),
            forward_walk(self, self.head_of(), limit).len() == backward_walk(
                self,
                self.tail_of(),
                limit,
            ).len(),
            forward_walk(self, self.head_of(), limit).len() == self@.len(),
    {
        let o = self.order@;
        let n = o.len() as int;
        self.lemma_forward_from(0, limit);
        self.lemma_backward_from(n, limit);
        assert(o.subrange(0, n) =~= o);
        assert(reversed_prefix(o, n) =~= o.reverse());
    }
}

impl<T: PartialEq + Clone> LinkedList<T> {
    /// Looking up the position that a search for `v` answers gives `v` back:
    /// where some value of the list equals `v` (in particular where exactly
    /// one does) and `==` is decided, the search answers a position, the
    /// lookup there answers a value, and that value is a clone of a value
    /// equal to `v`. For a type whose clones and equals are identical
    /// values, it is `v` itself.
    pub proof fn lemma_find_round_trip(self, v: T, index: Option<usize>, value: Option<T>)
        requires
            self.wf(),
            eq_is_decided::<T>(),
            exists|k: int| 0 <= k < self@.len() && equal(#[trigger] self@[k], v),
            index_found(self@, v, index),
            index is Some ==> value_found(self@, index.unwrap(), value),
        ensures
            index is Some,
            value is Some,
            index.unwrap() < self@.len(),
            equal(self@[index.unwrap() as int], v),
            cloned(self@[index.unwrap() as int], value.unwrap()),
            (forall|a: T, b: T| #[trigger] cloned(a, b) ==> a == b) && (forall|a: T, b: T| #[trigger]
                equal(a, b) ==> a == b) ==> value == Some(v),
    {
    }
}

} // verus!
