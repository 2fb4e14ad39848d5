//! Forward traversals over the foreign graph's linked collections, the
//! defined / declared views of a module's functions, and the transform that
//! drops a sequence's last element.

use vstd::multiset::Multiset;
use vstd::prelude::*;

use crate::handle::Handle;

verus! {

/// `items` is the chain that begins at `start` and ends at the first null
/// handle, which is not part of it, where `step(h, n)` says that `n` may
/// follow `h`. Every possible successor is followed.
pub open spec fn chain_under(
    step: spec_fn(Handle, Handle) -> bool,
    start: Handle,
    items: Seq<Handle>,
) -> bool
    decreases items.len(),
{
    if items.len() == 0 {
        start.spec_is_null()
    } else {
        &&& !start.spec_is_null()
        &&& items[0] == start
        &&& forall|next: Handle| #[trigger]
            step(start, next) ==> chain_under(step, next, items.drop_first())
    }
}

/// What `advance` may answer on `h`.
pub open spec fn follows<N: Fn(Handle) -> Handle>(advance: N) -> spec_fn(Handle, Handle) -> bool {
    |h: Handle, n: Handle| advance.ensures((h,), n)
}

/// `items` is what repeated `advance` yields from `start`, up to the first
/// null handle. Where `advance` answers consistently this is the one
/// sequence that the foreign collection holds.
pub open spec fn is_chain<N: Fn(Handle) -> Handle>(
    advance: N,
    start: Handle,
    items: Seq<Handle>,
) -> bool {
    chain_under(follows(advance), start, items)
}

/// The chain from `start` is finite.
pub open spec fn chain_ends<N: Fn(Handle) -> Handle>(advance: N, start: Handle) -> bool {
    exists|items: Seq<Handle>| is_chain(advance, start, items)
}

/// `advance` may be called on any handle.
pub open spec fn total<N: Fn(Handle) -> Handle>(advance: N) -> bool {
    forall|h: Handle| #[trigger] advance.requires((h,))
}

/// `items` is the collection of `parent`: what `first` gives for `parent`
/// starts the chain of `items`.
pub open spec fn is_collection<F: Fn(Handle) -> Handle, N: Fn(Handle) -> Handle>(
    first: F,
    next: N,
    parent: Handle,
    items: Seq<Handle>,
) -> bool {
    exists|start: Handle| #[trigger] first.ensures((parent,), start) && is_chain(next, start, items)
}

/// The primitive pair `first`, `next` may be used on `parent`, and its
/// collection is finite.
pub open spec fn traversable<F: Fn(Handle) -> Handle, N: Fn(Handle) -> Handle>(
    first: F,
    next: N,
    parent: Handle,
) -> bool {
    &&& first.requires((parent,))
    &&& total(next)
    &&& forall|start: Handle| #[trigger] first.ensures((parent,), start) ==> chain_ends(next, start)
}

/// One step of a traversal whose items still to come were `before`: it
/// yields `r` and leaves `after`.
pub open spec fn is_step<T>(before: Seq<T>, r: Option<T>, after: Seq<T>) -> bool {
    if before.len() == 0 {
        r is None && after.len() == 0
    } else {
        r == Some(before[0]) && after == before.drop_first()
    }
}

/// A lazy, forward-only sequence of items.
pub trait Traversal<T> {
    /// The items still to come, in order.
    spec fn remaining(&self) -> Seq<T>;

    /// The traversal's own well-formedness.
    spec fn inv(&self) -> bool;

    /// Yields the next item, or `None` once the items are exhausted.
    fn next_item(&mut self) -> (r: Option<T>)
        requires
            old(self).inv(),
        ensures
            final(self).inv(),
            is_step(old(self).remaining(), r, final(self).remaining()),
    ;
}

/// Drives a traversal to its end and gathers what it yields.
pub fn collect<T, I: Traversal<T>>(i: I) -> (r: Vec<T>)
    requires
        i.inv(),
    ensures
        r@ == i.remaining(),
{
    let mut it = i;
    let mut out: Vec<T> = Vec::new();
    loop
        invariant
            it.inv(),
            out@ + it.remaining() == i.remaining(),
        ensures
            out@ == i.remaining(),
        decreases it.remaining().len(),
    {
        let ghost before = it.remaining();
        match it.next_item() {
            None => {
                assert(out@ =~= out@ + before);
                break ;
            },
            Some(x) => {
                out.push(x);
                assert(out@ + it.remaining() =~= i.remaining());
            },
        }
    }
    out
}

/// A traversal of a foreign linked collection, driven by its `advance`
/// primitive, which gives the handle after a handle, or null at the end.
pub struct LinkedTraversal<N> {
    current: Handle,
    advance: N,
    items: Ghost<Seq<Handle>>,
}

impl<N: Fn(Handle) -> Handle> LinkedTraversal<N> {
    /// The primitive that the traversal advances with.
    pub closed spec fn advance_fn(&self) -> N {
        self.advance
    }

    /// The handle that the traversal stands on: the next to yield, or null.
    pub closed spec fn head(&self) -> Handle {
        self.current
    }

    /// Starts a traversal at `first`, the first handle of a collection or
    /// null for an empty one.
    pub fn new(first: Handle, advance: N) -> (r: Self)
        requires
            total(advance),
            chain_ends(advance, first),
        ensures
            r.inv(),
            r.advance_fn() == advance,
            is_chain(advance, first, r.remaining()),
    {
        let ghost items = choose|items: Seq<Handle>| is_chain(advance, first, items);
        LinkedTraversal { current: first, advance, items: Ghost(items) }
    }

    /// The handle stood on is the first item still to come, or null once
    /// none is.
    pub proof fn lemma_head(&self)
        requires
            self.inv(),
        ensures
            self.remaining().len() == 0 <==> self.head().spec_is_null(),
            self.remaining().len() > 0 ==> self.head() == self.remaining()[0],
    {
    }

    /// Drives the traversal to its end and gathers what it yields, together
    /// with the fact that `advance` was seen to answer along it.
    pub fn to_vec(self) -> (r: Vec<Handle>)
        requires
            self.inv(),
        ensures
            r@ == self.remaining(),
            answered_along(self.advance_fn(), r@),
    {
        let mut it = self;
        let mut out: Vec<Handle> = Vec::new();
        loop
            invariant
                it.inv(),
                it.advance_fn() == self.advance_fn(),
                out@ + it.remaining() == self.remaining(),
                forall|i: int|
                    #![trigger out@[i]]
                    0 <= i < out@.len() - 1 ==> self.advance_fn().ensures((out@[i],), out@[i + 1]),
                out@.len() > 0 ==> self.advance_fn().ensures((out@.last(),), it.head()),
            ensures
                out@ == self.remaining(),
                answered_along(self.advance_fn(), out@),
            decreases it.remaining().len(),
        {
            proof {
                it.lemma_head();
            }
            let ghost before = it.remaining();
            let ghost prev = out@;
            let ghost at = it.head();
            match it.next_item() {
                None => {
                    assert(out@ =~= out@ + before);
                    assert(at.addr == 0);
                    break ;
                },
                Some(x) => {
                    out.push(x);
                    assert(out@ + it.remaining() =~= self.remaining());
                    assert forall|i: int| #![trigger out@[i]]
                        0 <= i < out@.len() - 1 implies self.advance_fn().ensures(
                        (out@[i],),
                        out@[i + 1],
                    ) by {
                        if i < prev.len() - 1 {
                            assert(out@[i] == prev[i] && out@[i + 1] == prev[i + 1]);
                        } else {
                            assert(out@[i] == prev.last() && out@[i + 1] == x);
                        }
                    }
                },
            }
        }
        out
    }

    /// Starts a traversal of the collection that `first` finds in `parent`.
    pub fn from_parent<F: Fn(Handle) -> Handle>(parent: Handle, first: F, next: N) -> (r: Self)
        requires
            traversable(first, next, parent),
        ensures
            r.inv(),
            r.advance_fn() == next,
            is_collection(first, next, parent, r.remaining()),
    {
        let start = first(parent);
        LinkedTraversal::new(start, next)
    }
}

impl<N: Fn(Handle) -> Handle> Traversal<Handle> for LinkedTraversal<N> {
    closed spec fn remaining(&self) -> Seq<Handle> {
        self.items@
    }

    closed spec fn inv(&self) -> bool {
        total(self.advance) && is_chain(self.advance, self.current, self.items@)
    }

    /// A step that yields a handle moves to what `advance` answered on it.
    fn next_item(&mut self) -> (r: Option<Handle>)
        ensures
            final(self).advance_fn() == old(self).advance_fn(),
            old(self).remaining().len() == 0 ==> final(self).head() == old(self).head(),
            old(self).remaining().len() > 0 ==> old(self).advance_fn().ensures(
                (old(self).remaining()[0],),
                final(self).head(),
            ),
    {
        if self.current.is_null() {
            None
        } else {
            let item = self.current;
            let after = (self.advance)(item);
            assert(follows(self.advance)(item, after));
            self.current = after;
            self.items = Ghost(self.items@.drop_first());
            Some(item)
        }
    }
}

/// `pred` answers on every handle, and always alike.
pub open spec fn decides<D: Fn(Handle) -> bool>(pred: D) -> bool {
    &&& forall|h: Handle| #[trigger] pred.requires((h,))
    &&& forall|h: Handle, a: bool, b: bool|
        #[trigger] pred.ensures((h,), a) && #[trigger] pred.ensures((h,), b) ==> a == b
}

/// `pred` answers `true` on `h`.
pub open spec fn holds_on<D: Fn(Handle) -> bool>(pred: D, h: Handle) -> bool {
    pred.ensures((h,), true)
}

/// The items on which `pred`'s answer is `want`, in their order.
pub open spec fn selected<D: Fn(Handle) -> bool>(
    items: Seq<Handle>,
    pred: D,
    want: bool,
) -> Seq<Handle>
    decreases items.len(),
{
    if items.len() == 0 {
        items
    } else {
        let rest = selected(items.drop_first(), pred, want);
        if holds_on(pred, items[0]) == want {
            seq![items[0]] + rest
        } else {
            rest
        }
    }
}

/// The items of a traversal on which a predicate gives a wanted answer.
pub struct FilteredTraversal<N, D> {
    base: LinkedTraversal<N>,
    pred: D,
    want: bool,
}

impl<N: Fn(Handle) -> Handle, D: Fn(Handle) -> bool> FilteredTraversal<N, D> {
    /// The items that the underlying traversal has still to yield.
    pub closed spec fn base_items(&self) -> Seq<Handle> {
        self.base.remaining()
    }

    /// The predicate that items are filtered by.
    pub closed spec fn predicate(&self) -> D {
        self.pred
    }

    /// The answer of the predicate on the items that are kept.
    pub closed spec fn wanted(&self) -> bool {
        self.want
    }

    /// Keeps the items of `base` on which `pred` answers `want`.
    pub fn new(base: LinkedTraversal<N>, pred: D, want: bool) -> (r: Self)
        requires
            base.inv(),
            decides(pred),
        ensures
            r.inv(),
            r.base_items() == base.remaining(),
            r.predicate() == pred,
            r.wanted() == want,
    {
        FilteredTraversal { base, pred, want }
    }
}

impl<N: Fn(Handle) -> Handle, D: Fn(Handle) -> bool> Traversal<Handle> for FilteredTraversal<N, D> {
    open spec fn remaining(&self) -> Seq<Handle> {
        selected(self.base_items(), self.predicate(), self.wanted())
    }

    closed spec fn inv(&self) -> bool {
        self.base.inv() && decides(self.pred)
    }

    fn next_item(&mut self) -> (r: Option<Handle>) {
        loop
            invariant
                self.base.inv(),
                decides(self.pred),
                self.pred == old(self).pred,
                self.want == old(self).want,
                selected(self.base.remaining(), self.pred, self.want) == old(self).remaining(),
            decreases self.base.remaining().len(),
        {
            let ghost before = self.base.remaining();
            match self.base.next_item() {
                None => {
                    return None;
                },
                Some(h) => {
                    let answer = (self.pred)(h);
                    assert(holds_on(self.pred, h) == answer);
                    let ghost kept = selected(self.base.remaining(), self.pred, self.want);
                    if answer == self.want {
                        assert(selected(before, self.pred, self.want) == seq![h] + kept);
                        assert((seq![h] + kept).drop_first() =~= kept);
                        return Some(h);
                    }
                },
            }
        }
    }
}

/// The functions of `module`: `first` gives the first of them, `next` the
/// one after a function, both null at the end.
pub fn get_functions<F: Fn(Handle) -> Handle, N: Fn(Handle) -> Handle>(
    module: Handle,
    first: F,
    next: N,
) -> (r: LinkedTraversal<N>)
    requires
        traversable(first, next, module),
    ensures
        r.inv(),
        is_collection(first, next, module, r.remaining()),
{
    LinkedTraversal::from_parent(module, first, next)
}

/// The functions of `module` that have a body.
pub fn get_defined_functions<
    F: Fn(Handle) -> Handle,
    N: Fn(Handle) -> Handle,
    D: Fn(Handle) -> bool,
>(module: Handle, first: F, next: N, has_body: D) -> (r: FilteredTraversal<N, D>)
    requires
        traversable(first, next, module),
        decides(has_body),
    ensures
        r.inv(),
        is_collection(first, next, module, r.base_items()),
        r.remaining() == selected(r.base_items(), has_body, true),
{
    FilteredTraversal::new(get_functions(module, first, next), has_body, true)
}

/// The functions of `module` that are only declared: those without a body.
pub fn get_declared_functions<
    F: Fn(Handle) -> Handle,
    N: Fn(Handle) -> Handle,
    D: Fn(Handle) -> bool,
>(module: Handle, first: F, next: N, has_body: D) -> (r: FilteredTraversal<N, D>)
    requires
        traversable(first, next, module),
        decides(has_body),
    ensures
        r.inv(),
        is_collection(first, next, module, r.base_items()),
        r.remaining() == selected(r.base_items(), has_body, false),
{
    FilteredTraversal::new(get_functions(module, first, next), has_body, false)
}

/// The global variables of `module`.
pub fn get_globals<F: Fn(Handle) -> Handle, N: Fn(Handle) -> Handle>(
    module: Handle,
    first: F,
    next: N,
) -> (r: LinkedTraversal<N>)
    requires
        traversable(first, next, module),
    ensures
        r.inv(),
        is_collection(first, next, module, r.remaining()),
{
    LinkedTraversal::from_parent(module, first, next)
}

/// The global aliases of `module`.
pub fn get_global_aliases<F: Fn(Handle) -> Handle, N: Fn(Handle) -> Handle>(
    module: Handle,
    first: F,
    next: N,
) -> (r: LinkedTraversal<N>)
    requires
        traversable(first, next, module),
    ensures
        r.inv(),
        is_collection(first, next, module, r.remaining()),
{
    LinkedTraversal::from_parent(module, first, next)
}

/// The indirect functions of `module`.
pub fn get_global_ifuncs<F: Fn(Handle) -> Handle, N: Fn(Handle) -> Handle>(
    module: Handle,
    first: F,
    next: N,
) -> (r: LinkedTraversal<N>)
    requires
        traversable(first, next, module),
    ensures
        r.inv(),
        is_collection(first, next, module, r.remaining()),
{
    LinkedTraversal::from_parent(module, first, next)
}

/// The parameters of function `func`.
pub fn get_parameters<F: Fn(Handle) -> Handle, N: Fn(Handle) -> Handle>(
    func: Handle,
    first: F,
    next: N,
) -> (r: LinkedTraversal<N>)
    requires
        traversable(first, next, func),
    ensures
        r.inv(),
        is_collection(first, next, func, r.remaining()),
{
    LinkedTraversal::from_parent(func, first, next)
}

/// The basic blocks of function `func`.
pub fn get_basic_blocks<F: Fn(Handle) -> Handle, N: Fn(Handle) -> Handle>(
    func: Handle,
    first: F,
    next: N,
) -> (r: LinkedTraversal<N>)
    requires
        traversable(first, next, func),
    ensures
        r.inv(),
        is_collection(first, next, func, r.remaining()),
{
    LinkedTraversal::from_parent(func, first, next)
}

/// The instructions of basic block `bb`.
pub fn get_instructions<F: Fn(Handle) -> Handle, N: Fn(Handle) -> Handle>(
    bb: Handle,
    first: F,
    next: N,
) -> (r: LinkedTraversal<N>)
    requires
        traversable(first, next, bb),
    ensures
        r.inv(),
        is_collection(first, next, bb, r.remaining()),
{
    LinkedTraversal::from_parent(bb, first, next)
}

/// `s` without its last element; empty stays empty.
pub open spec fn without_last<T>(s: Seq<T>) -> Seq<T> {
    if s.len() == 0 {
        s
    } else {
        s.drop_last()
    }
}

/// The items of a traversal but its last, read one item ahead of what has
/// been yielded.
pub struct AllButLastIterator<T, I> {
    p: I,
    pending: Option<T>,
}

impl<T, I: Traversal<T>> AllButLastIterator<T, I> {
    /// Everything not yet read from the underlying traversal, together with
    /// the item held ahead.
    pub closed spec fn input(&self) -> Seq<T> {
        match self.pending {
            Some(x) => seq![x] + self.p.remaining(),
            None => self.p.remaining(),
        }
    }

    /// The item read ahead and held, not yet yielded.
    pub closed spec fn lookahead(&self) -> Option<T> {
        self.pending
    }

    /// What the underlying traversal has still to yield.
    pub closed spec fn rest(&self) -> Seq<T> {
        self.p.remaining()
    }

    /// Wraps `i`; nothing is read from it yet, and nothing is held.
    pub fn new(i: I) -> (r: Self)
        requires
            i.inv(),
        ensures
            r.inv(),
            r.lookahead() is None,
            r.rest() == i.remaining(),
            r.input() == i.remaining(),
    {
        AllButLastIterator { p: i, pending: None }
    }
}

impl<T, I: Traversal<T>> Traversal<T> for AllButLastIterator<T, I> {
    open spec fn remaining(&self) -> Seq<T> {
        without_last(self.input())
    }

    closed spec fn inv(&self) -> bool {
        self.p.inv()
    }

    /// Reads exactly one item past the one it yields: after a step with two
    /// or more items to come, the second is held and the underlying
    /// traversal has been read no further.
    fn next_item(&mut self) -> (r: Option<T>)
        ensures
            final(self).input() == if old(self).input().len() == 0 {
                old(self).input()
            } else {
                old(self).input().drop_first()
            },
            old(self).input().len() >= 2 ==> {
                &&& final(self).lookahead() == Some(old(self).input()[1])
                &&& final(self).rest() == old(self).input().subrange(
                    2,
                    old(self).input().len() as int,
                )
            },
            old(self).input().len() < 2 ==> final(self).lookahead() is None,
            old(self).input().len() < 2 ==> final(self).rest().len() == 0,
    {
        let current = match self.pending.take() {
            Some(x) => Some(x),
            None => self.p.next_item(),
        };
        match current {
            None => None,
            Some(x) => {
                match self.p.next_item() {
                    Some(y) => {
                        self.pending = Some(y);
                        assert(self.input().drop_last() =~= old(self).input().drop_last().drop_first());
                        Some(x)
                    },
                    None => {
                        assert(old(self).input() =~= seq![x]);
                        None
                    },
                }
            },
        }
    }
}

/// Every item of `i` but the last, in order.
pub fn all_but_last<T, I: Traversal<T>>(i: I) -> (r: AllButLastIterator<T, I>)
    requires
        i.inv(),
    ensures
        r.inv(),
        r.remaining() == without_last(i.remaining()),
{
    AllButLastIterator::new(i)
}

/// `advance` was seen to answer along `items`: on each item it answered the
/// next one, and on the last one null, as a traversal of `items` that ran to
/// its end has seen.
pub open spec fn answered_along<N: Fn(Handle) -> Handle>(advance: N, items: Seq<Handle>) -> bool {
    &&& forall|i: int|
        #![trigger items[i]]
        0 <= i < items.len() - 1 ==> advance.ensures((items[i],), items[i + 1])
    &&& items.len() > 0 ==> advance.ensures((items.last(),), Handle { addr: 0 })
}

/// Repeated `advance` from `start` yields one sequence only: a chain along
/// which `advance` was seen to answer is every chain from `start`.
pub proof fn lemma_chain_unique<N: Fn(Handle) -> Handle>(
    advance: N,
    start: Handle,
    a: Seq<Handle>,
    b: Seq<Handle>,
)
    requires
        answered_along(advance, a),
        is_chain(advance, start, a),
        is_chain(advance, start, b),
    ensures
        a == b,
    decreases a.len(),
{
    if a.len() == 0 || b.len() == 0 {
        assert(a =~= b);
    } else {
        let rest = a.drop_first();
        if a.len() == 1 {
            reveal_with_fuel(chain_under, 2);
            assert(a.last() == start);
            assert(follows(advance)(start, Handle { addr: 0 }));
            assert(b.drop_first().len() == 0);
        } else {
            assert(follows(advance)(start, a[1]));
            assert(answered_along(advance, rest)) by {
                assert forall|i: int| 0 <= i < rest.len() - 1 implies advance.ensures(
                    (#[trigger] rest[i],),
                    rest[i + 1],
                ) by {
                    assert(rest[i] == a[i + 1]);
                }
                assert(rest.last() == a.last());
            }
            lemma_chain_unique(advance, a[1], rest, b.drop_first());
        }
        assert(a =~= seq![a[0]] + a.drop_first());
        assert(b =~= seq![b[0]] + b.drop_first());
    }
}

/// The defined and the declared functions, each in the order of the
/// collection, make up the collection as a multiset, and no handle is in
/// both.
pub proof fn lemma_partition<D: Fn(Handle) -> bool>(items: Seq<Handle>, has_body: D)
    ensures
        selected(items, has_body, true).to_multiset().add(
            selected(items, has_body, false).to_multiset(),
        ) == items.to_multiset(),
        forall|h: Handle| #[trigger]
            selected(items, has_body, true).contains(h) ==> holds_on(has_body, h),
        forall|h: Handle| #[trigger]
            selected(items, has_body, false).contains(h) ==> !holds_on(has_body, h),
        forall|h: Handle|
            !(#[trigger] selected(items, has_body, true).contains(h) && selected(
                items,
                has_body,
                false,
            ).contains(h)),
    decreases items.len(),
{
    broadcast use vstd::seq_lib::lemma_multiset_commutative;
    broadcast use vstd::seq_lib::group_to_multiset_ensures;
    broadcast use vstd::multiset::group_multiset_axioms;

    if items.len() > 0 {
        let x = items[0];
        let rest = items.drop_first();
        lemma_partition(rest, has_body);
        let d = selected(rest, has_body, true);
        let u = selected(rest, has_body, false);
        assert(items =~= seq![x] + rest);
        assert(seq![x] + rest == items);
        assert(seq![x] =~= Seq::<Handle>::empty().push(x));
        assert(Seq::<Handle>::empty().to_multiset() =~= Multiset::<Handle>::empty());
        assert(seq![x].to_multiset() =~= Multiset::<Handle>::empty().insert(x));
        assert((seq![x] + d).to_multiset() == seq![x].to_multiset().add(d.to_multiset()));
        assert((seq![x] + u).to_multiset() == seq![x].to_multiset().add(u.to_multiset()));
        assert(items.to_multiset() == seq![x].to_multiset().add(rest.to_multiset()));
        if holds_on(has_body, x) {
            assert(selected(items, has_body, true) == seq![x] + d);
            assert(selected(items, has_body, false) == u);
            assert forall|h: Handle| #[trigger] (seq![x] + d).contains(h) implies holds_on(
                has_body,
                h,
            ) by {
                if h != x {
                    let k = choose|k: int| 0 <= k < (seq![x] + d).len() && (seq![x] + d)[k] == h;
                    assert(d[k - 1] == h);
                    assert(d.contains(h));
                }
            }
        } else {
            assert(selected(items, has_body, false) == seq![x] + u);
            assert(selected(items, has_body, true) == d);
            assert forall|h: Handle| #[trigger] (seq![x] + u).contains(h) implies !holds_on(
                has_body,
                h,
            ) by {
                if h != x {
                    let k = choose|k: int| 0 <= k < (seq![x] + u).len() && (seq![x] + u)[k] == h;
                    assert(u[k - 1] == h);
                    assert(u.contains(h));
                }
            }
        }
        assert(selected(items, has_body, true).to_multiset().add(
            selected(items, has_body, false).to_multiset(),
        ) =~= items.to_multiset());
    }
}

/// `first` gives at most one handle for `parent`.
pub open spec fn answers_once<F: Fn(Handle) -> Handle>(first: F, parent: Handle) -> bool {
    forall|a: Handle, b: Handle|
        #[trigger] first.ensures((parent,), a) && #[trigger] first.ensures((parent,), b) ==> a
            == b
}

/// Where `first` answers alike each time and a traversal of all the
/// functions has seen `next` answer along them, the defined view of a
/// module's functions and its declared view, each read from its own
/// traversal, together hold exactly
/// the functions of the unfiltered traversal, each in its order, and share
/// no handle.
pub proof fn lemma_defined_declared_partition<
    F: Fn(Handle) -> Handle,
    N: Fn(Handle) -> Handle,
    D: Fn(Handle) -> bool,
>(
    first: F,
    next: N,
    module: Handle,
    has_body: D,
    all: Seq<Handle>,
    base_defined: Seq<Handle>,
    base_declared: Seq<Handle>,
)
    requires
        answers_once(first, module),
        answered_along(next, all),
        is_collection(first, next, module, all),
        is_collection(first, next, module, base_defined),
        is_collection(first, next, module, base_declared),
    ensures
        selected(base_defined, has_body, true).to_multiset().add(
            selected(base_declared, has_body, false).to_multiset(),
        ) == all.to_multiset(),
        forall|h: Handle|
            !(#[trigger] selected(base_defined, has_body, true).contains(h) && selected(
                base_declared,
                has_body,
                false,
            ).contains(h)),
{
    let s0 = choose|s: Handle| #[trigger] first.ensures((module,), s) && is_chain(next, s, all);
    let s1 = choose|s: Handle|
        #[trigger] first.ensures((module,), s) && is_chain(next, s, base_defined);
    let s2 = choose|s: Handle|
        #[trigger] first.ensures((module,), s) && is_chain(next, s, base_declared);
    lemma_chain_unique(next, s0, all, base_defined);
    lemma_chain_unique(next, s0, all, base_declared);
    lemma_partition(all, has_body);
}

/// Dropping the last element of a sequence of length `n` leaves `n - 1`
/// elements, none where `n` is 0, each where it stood.
pub proof fn lemma_without_last<T>(s: Seq<T>)
    ensures
        without_last(s).len() == if s.len() == 0 {
            0
        } else {
            s.len() - 1
        },
        forall|i: int| 0 <= i < s.len() - 1 ==> #[trigger] without_last(s)[i] == s[i],
        s.len() >= 1 ==> without_last(s) + seq![s.last()] == s,
{
    if s.len() >= 1 {
        assert(without_last(s) + seq![s.last()] =~= s);
    }
}

} // verus!
