//! Strongly connected components of a directed graph, sinks first.
use vstd::prelude::*;

use crate::measure::Measure;

verus! {

/// One connection to another slot, with its weight.
#[derive(Clone, Copy, Debug, PartialEq, Eq, Structural)]
pub struct Edge {
    /// The slot that the connection leads to.
    pub to: usize,
    /// The weight of the connection.
    pub weight: Measure,
}

/// Every connection leads to a slot of the graph.
pub open spec fn well_wired(out: Seq<Vec<Edge>>) -> bool {
    forall|u: int, k: int|
        0 <= u < out.len() && 0 <= k < out[u]@.len() ==> (#[trigger] out[u]@[k]).to < out.len()
}

/// Some connection leads from `u` to `v`.
pub open spec fn connects(out: Seq<Vec<Edge>>, u: int, v: int) -> bool {
    0 <= u < out.len() && exists|k: int| 0 <= k < out[u]@.len() && (#[trigger] out[u]@[k]).to == v
}

/// `v` is `steps` connections away from `u`.
pub open spec fn reaches_in(out: Seq<Vec<Edge>>, u: int, v: int, steps: nat) -> bool
    decreases steps,
{
    if steps == 0 {
        u == v
    } else {
        exists|w: int|
            #[trigger] connects(out, u, w) && reaches_in(out, w, v, (steps - 1) as nat)
    }
}

/// A chain of connections, possibly an empty one, leads from `u` to `v`.
#[verifier::opaque]
pub open spec fn reaches(out: Seq<Vec<Edge>>, u: int, v: int) -> bool {
    exists|steps: nat| reaches_in(out, u, v, steps)
}

/// `components` holds every slot of the graph exactly once.
pub open spec fn is_partition(components: Seq<Vec<usize>>, n: int) -> bool {
    &&& forall|c: int, k: int|
        0 <= c < components.len() && 0 <= k < components[c]@.len() ==> (
        #[trigger] components[c]@[k]) < n
    &&& forall|v: int| 0 <= v < n ==> #[trigger] placed(components, v)
    &&& placed_once(components)
}

/// Some component holds `v`.
pub open spec fn placed(components: Seq<Vec<usize>>, v: int) -> bool {
    exists|c: int| 0 <= c < components.len() && #[trigger] member_of(components, c, v)
}

/// Component `c` holds `v`.
pub open spec fn member_of(components: Seq<Vec<usize>>, c: int, v: int) -> bool {
    0 <= c < components.len() && exists|k: int|
        0 <= k < components[c]@.len() && #[trigger] components[c]@[k] == v
}

/// No slot stands twice among the components.
pub open spec fn placed_once(components: Seq<Vec<usize>>) -> bool {
    forall|c: int, k: int, d: int, l: int|
        0 <= c < components.len() && 0 <= k < components[c]@.len() && 0 <= d < components.len()
            && 0 <= l < components[d]@.len() && #[trigger] components[c]@[k]
            == #[trigger] components[d]@[l] ==> c == d && k == l
}

/// Any two slots of one component reach each other.
pub open spec fn strongly_connected(out: Seq<Vec<Edge>>, components: Seq<Vec<usize>>) -> bool {
    forall|c: int, u: int, v: int|
        #[trigger] member_of(components, c, u) && #[trigger] member_of(components, c, v)
            ==> reaches(out, u, v)
}

/// A connection never leads to a component that comes later.
pub open spec fn sinks_first(out: Seq<Vec<Edge>>, components: Seq<Vec<usize>>) -> bool {
    forall|c: int, d: int, u: int, v: int|
        #[trigger] member_of(components, c, u) && #[trigger] member_of(components, d, v)
            && connects(out, u, v) ==> d <= c
}

/// `components` are the strongly connected components of the graph, ordered so
/// that whatever a component leads to comes before it.
pub open spec fn is_decomposition(out: Seq<Vec<Edge>>, components: Seq<Vec<usize>>) -> bool {
    &&& is_partition(components, out.len() as int)
    &&& forall|c: int| 0 <= c < components.len() ==> (#[trigger] components[c])@.len() > 0
    &&& strongly_connected(out, components)
    &&& sinks_first(out, components)
}

proof fn lemma_reaches_itself(out: Seq<Vec<Edge>>, u: int)
    ensures
        reaches(out, u, u),
{
    reveal(reaches);
    assert(reaches_in(out, u, u, 0));
}

proof fn lemma_connection_reaches(out: Seq<Vec<Edge>>, u: int, v: int)
    requires
        connects(out, u, v),
    ensures
        reaches(out, u, v),
{
    reveal(reaches);
    assert(reaches_in(out, v, v, 0));
    assert(reaches_in(out, u, v, 1));
}

proof fn lemma_steps_add(out: Seq<Vec<Edge>>, u: int, v: int, w: int, a: nat, b: nat)
    requires
        reaches_in(out, u, v, a),
        reaches_in(out, v, w, b),
    ensures
        reaches_in(out, u, w, a + b),
    decreases a,
{
    if a > 0 {
        let x = choose|x: int|
            #[trigger] connects(out, u, x) && reaches_in(out, x, v, (a - 1) as nat);
        lemma_steps_add(out, x, v, w, (a - 1) as nat, b);
        assert((a + b - 1) as nat == (a - 1) as nat + b);
        assert(connects(out, u, x) && reaches_in(out, x, w, (a + b - 1) as nat));
    }
}

/// Reaching is transitive.
pub proof fn lemma_reaches_transitive(out: Seq<Vec<Edge>>, u: int, v: int, w: int)
    requires
        reaches(out, u, v),
        reaches(out, v, w),
    ensures
        reaches(out, u, w),
{
    reveal(reaches);
    let a = choose|a: nat| reaches_in(out, u, v, a);
    let b = choose|b: nat| reaches_in(out, v, w, b);
    lemma_steps_add(out, u, v, w, a, b);
}

proof fn lemma_never_later(
    out: Seq<Vec<Edge>>,
    components: Seq<Vec<usize>>,
    u: int,
    v: int,
    c: int,
    d: int,
    steps: nat,
)
    requires
        well_wired(out),
        is_decomposition(out, components),
        member_of(components, c, u),
        member_of(components, d, v),
        reaches_in(out, u, v, steps),
    ensures
        d <= c,
    decreases steps,
{
    if steps == 0 {
        let k = choose|k: int| 0 <= k < components[c]@.len() && #[trigger] components[c]@[k] == u;
        let l = choose|l: int| 0 <= l < components[d]@.len() && #[trigger] components[d]@[l] == v;
        assert(components[c]@[k] == components[d]@[l]);
    } else {
        let w = choose|w: int|
            #[trigger] connects(out, u, w) && reaches_in(out, w, v, (steps - 1) as nat);
        assert(0 <= w < out.len());
        assert(placed(components, w));
        let e = choose|e: int|
            0 <= e < components.len() && #[trigger] member_of(components, e, w);
        lemma_never_later(out, components, w, v, e, d, (steps - 1) as nat);
    }
}

/// Components are maximal: slots that reach each other share a component, and
/// a slot reaches no component that comes after its own.
pub proof fn law_components_are_maximal(
    out: Seq<Vec<Edge>>,
    components: Seq<Vec<usize>>,
    u: int,
    v: int,
    c: int,
    d: int,
)
    requires
        well_wired(out),
        is_decomposition(out, components),
        member_of(components, c, u),
        member_of(components, d, v),
        reaches(out, u, v),
    ensures
        d <= c,
        reaches(out, v, u) ==> c == d,
{
    reveal(reaches);
    let a = choose|a: nat| reaches_in(out, u, v, a);
    lemma_never_later(out, components, u, v, c, d, a);
    if reaches(out, v, u) {
        let b = choose|b: nat| reaches_in(out, v, u, b);
        lemma_never_later(out, components, v, u, d, c, b);
    }
}

/// How many slots below `n` have no index yet.
spec fn unvisited(index: Seq<usize>, n: int) -> nat
    decreases n,
{
    if n <= 0 {
        0
    } else {
        unvisited(index, n - 1) + if index[n - 1] == usize::MAX {
            1nat
        } else {
            0nat
        }
    }
}

proof fn lemma_unvisited_update(index: Seq<usize>, n: int, v: int, i: usize)
    requires
        0 <= n <= index.len(),
        0 <= v < index.len(),
        index[v] == usize::MAX,
        i != usize::MAX,
    ensures
        unvisited(index.update(v, i), n) == unvisited(index, n) - if v < n {
            1int
        } else {
            0int
        },
        v < n ==> unvisited(index, n) > 0,
    decreases n,
{
    if n > 0 {
        lemma_unvisited_update(index, n - 1, v, i);
    }
}

proof fn lemma_all_unvisited(index: Seq<usize>, n: int)
    requires
        0 <= n <= index.len(),
        forall|k: int| 0 <= k < index.len() ==> index[k] == usize::MAX,
    ensures
        unvisited(index, n) == n,
    decreases n,
{
    if n > 0 {
        lemma_all_unvisited(index, n - 1);
    }
}

/// One slot whose connections are being followed, and how many were.
#[derive(Clone, Copy)]
struct Frame {
    node: usize,
    cursor: usize,
}

/// The connections that the open slots still have to follow.
spec fn pending(out: Seq<Vec<Edge>>, call: Seq<Frame>) -> nat
    decreases call.len(),
{
    if call.len() == 0 {
        0
    } else {
        pending(out, call.drop_last()) + 1 + (if call.last().cursor <= out[call.last().node as int]@.len() {
            (out[call.last().node as int]@.len() - call.last().cursor) as nat
        } else {
            0nat
        })
    }
}

/// A depth-first walk in progress.
struct Walk {
    index: Vec<usize>,
    low: Vec<usize>,
    on_stack: Vec<bool>,
    stack: Vec<usize>,
    call: Vec<Frame>,
    next: usize,
    components: Vec<Vec<usize>>,
}

impl Walk {
    spec fn seen(self, v: int) -> bool {
        self.index@[v] != usize::MAX
    }

    spec fn held(self, v: int) -> bool {
        self.on_stack@[v]
    }

    #[verifier::opaque]
    spec fn stacked(self, v: int) -> bool {
        exists|p: int| 0 <= p < self.stack@.len() && #[trigger] self.stack@[p] == v
    }

    spec fn open_at(self, i: int) -> int {
        self.call@[i].node as int
    }

    spec fn is_open(self, v: int) -> bool {
        exists|i: int| 0 <= i < self.call@.len() && #[trigger] self.open_at(i) == v
    }

    /// Slot `v` belongs to the open slot at `i`: it was met after it and
    /// before the next one.
    spec fn owned_by(self, v: int, i: int) -> bool {
        &&& 0 <= i < self.call@.len()
        &&& self.index@[self.open_at(i)] <= self.index@[v]
        &&& i + 1 < self.call@.len() ==> self.index@[v] < self.index@[self.open_at(i + 1)]
    }

    #[verifier::opaque]
    spec fn shape(self, out: Seq<Vec<Edge>>) -> bool {
        let n = out.len();
        &&& well_wired(out)
        &&& self.index@.len() == n
        &&& self.low@.len() == n
        &&& self.on_stack@.len() == n
        &&& self.next + unvisited(self.index@, n as int) == n
        &&& forall|v: int| 0 <= v < n && self.seen(v) ==> (#[trigger] self.index@[v]) < self.next
        &&& forall|u: int, v: int|
            #![trigger self.index@[u], self.index@[v]]
            0 <= u < n && 0 <= v < n && u != v && self.seen(u) ==> self.index@[u] != self.index@[v]
    }

    #[verifier::opaque]
    spec fn stack_shape(self, out: Seq<Vec<Edge>>) -> bool {
        let n = out.len();
        &&& forall|p: int|
            0 <= p < self.stack@.len() ==> (#[trigger] self.stack@[p]) < n && self.held(
                self.stack@[p] as int,
            )
        &&& forall|v: int| 0 <= v < n && #[trigger] self.held(v) ==> self.seen(v)
        &&& forall|v: int|
            0 <= v < n && #[trigger] self.held(v) ==> self.stacked(v)
        &&& forall|p: int, q: int|
            #![trigger self.stack@[p], self.stack@[q]]
            0 <= p < q < self.stack@.len() ==> self.index@[self.stack@[p] as int]
                < self.index@[self.stack@[q] as int]
    }

    #[verifier::opaque]
    spec fn call_shape(self, out: Seq<Vec<Edge>>) -> bool {
        let n = out.len();
        &&& forall|i: int|
            0 <= i < self.call@.len() ==> 0 <= #[trigger] self.open_at(i) < n && self.held(
                self.open_at(i),
            ) && self.call@[i].cursor <= out[self.open_at(i)]@.len()
        &&& forall|i: int, j: int|
            #![trigger self.open_at(i), self.open_at(j)]
            0 <= i < j < self.call@.len() ==> self.index@[self.open_at(i)]
                < self.index@[self.open_at(j)]
    }

    /// Every open slot's low link is the index of a held slot that it reaches.
    #[verifier::opaque]
    spec fn low_links(self, out: Seq<Vec<Edge>>) -> bool {
        forall|i: int|
            0 <= i < self.call@.len() ==> self.low@[#[trigger] self.open_at(i)]
                <= self.index@[self.open_at(i)] && self.low_witness(out, self.open_at(i))
    }

    #[verifier::opaque]
    spec fn low_witness(self, out: Seq<Vec<Edge>>, v: int) -> bool {
        exists|w: int|
            0 <= w < out.len() && #[trigger] self.held(w) && self.index@[w] == self.low@[v]
                && reaches(out, v, w)
    }

    /// Every held slot reaches an open slot that was met no later.
    #[verifier::opaque]
    spec fn leads_back(self, out: Seq<Vec<Edge>>) -> bool {
        forall|x: int|
            0 <= x < out.len() && #[trigger] self.held(x) ==> self.back_witness(out, x)
    }

    #[verifier::opaque]
    spec fn back_witness(self, out: Seq<Vec<Edge>>, x: int) -> bool {
        exists|i: int|
            0 <= i < self.call@.len() && self.index@[#[trigger] self.open_at(i)] <= self.index@[x]
                && reaches(out, x, self.open_at(i))
    }

    /// Every open slot reaches each held slot that was met no earlier.
    #[verifier::opaque]
    spec fn leads_on(self, out: Seq<Vec<Edge>>) -> bool {
        forall|i: int, x: int|
            #![trigger self.open_at(i), self.held(x)]
            0 <= i < self.call@.len() && 0 <= x < out.len() && self.held(x)
                && self.index@[self.open_at(i)] <= self.index@[x] ==> reaches(
                out,
                self.open_at(i),
                x,
            )
    }

    /// A connection that was followed leads to a slot that was met; if that
    /// one is held, the owner's low link covers it.
    #[verifier::opaque]
    spec fn followed(self, out: Seq<Vec<Edge>>) -> bool {
        &&& forall|i: int, k: int|
            #![trigger self.open_at(i), out[self.open_at(i)]@[k]]
            0 <= i < self.call@.len() && 0 <= k < self.call@[i].cursor ==> self.seen(
                out[self.open_at(i)]@[k].to as int,
            ) && (self.held(out[self.open_at(i)]@[k].to as int) ==> self.low@[self.open_at(i)]
                <= self.index@[out[self.open_at(i)]@[k].to as int])
        &&& forall|x: int, k: int|
            0 <= x < out.len() && self.held(x) && !self.is_open(x) && 0 <= k < out[x]@.len()
                ==> self.seen((#[trigger] out[x]@[k]).to as int)
        &&& forall|x: int, k: int, i: int|
            #![trigger out[x]@[k], self.owned_by(x, i)]
            0 <= x < out.len() && self.held(x) && !self.is_open(x) && 0 <= k < out[x]@.len()
                && self.owned_by(x, i) && self.held(out[x]@[k].to as int)
                ==> self.low@[self.open_at(i)] <= self.index@[out[x]@[k].to as int]
    }

    /// The components found so far hold exactly the slots that were met and
    /// are no longer held, and no connection leaves them but to earlier ones.
    #[verifier::opaque]
    spec fn closed_off(self, out: Seq<Vec<Edge>>) -> bool {
        let n = out.len();
        &&& forall|c: int, k: int|
            0 <= c < self.components@.len() && 0 <= k < self.components@[c]@.len() ==> (
            #[trigger] self.components@[c]@[k]) < n && self.seen(
                self.components@[c]@[k] as int,
            ) && !self.held(self.components@[c]@[k] as int)
        &&& forall|v: int|
            0 <= v < n && self.seen(v) && !self.held(v) ==> #[trigger] placed(self.components@, v)
        &&& placed_once(self.components@)
        &&& forall|c: int|
            0 <= c < self.components@.len() ==> (#[trigger] self.components@[c])@.len() > 0
        &&& strongly_connected(out, self.components@)
        &&& forall|c: int, u: int, v: int|
            #[trigger] member_of(self.components@, c, u) && #[trigger] connects(out, u, v)
                ==> exists|d: int| d <= c && #[trigger] member_of(self.components@, d, v)
    }

    spec fn inv(self, out: Seq<Vec<Edge>>) -> bool {
        &&& self.shape(out)
        &&& self.stack_shape(out)
        &&& self.call_shape(out)
        &&& self.low_links(out)
        &&& self.leads_back(out)
        &&& self.leads_on(out)
        &&& self.followed(out)
        &&& self.closed_off(out)
    }
}

/// What a step of the walk leaves as it was, for all slots but `v`.
spec fn undisturbed(out: Seq<Vec<Edge>>, pre: Walk, post: Walk, v: int) -> bool {
    let n = out.len() as int;
    let m = pre.call@.len() as int;
    &&& forall|i: int|
        #![trigger post.open_at(i)]
        #![trigger pre.open_at(i)]
        0 <= i < m ==> post.open_at(i) == pre.open_at(i) && 0 <= pre.open_at(i) < n
            && pre.open_at(i) != v && pre.held(pre.open_at(i)) && pre.call@[i].cursor
            <= out[pre.open_at(i)]@.len()
    &&& forall|x: int|
        #![trigger post.held(x)]
        #![trigger pre.held(x)]
        0 <= x < n && x != v ==> post.held(x) == pre.held(x)
    &&& forall|x: int|
        0 <= x < n && #[trigger] pre.held(x) ==> x != v && pre.seen(x) && pre.index@[x] < pre.next
    &&& forall|x: int|
        #![trigger post.index@[x]]
        #![trigger pre.index@[x]]
        0 <= x < n && x != v ==> post.index@[x] == pre.index@[x]
    &&& forall|x: int|
        #![trigger post.low@[x]]
        #![trigger pre.low@[x]]
        0 <= x < n && x != v ==> post.low@[x] == pre.low@[x]
}

/// Slot `v` joins the walk.
spec fn enters(out: Seq<Vec<Edge>>, pre: Walk, post: Walk, v: int) -> bool {
    &&& 0 <= v < out.len() <= usize::MAX
    &&& !pre.seen(v)
    &&& pre.next < usize::MAX
    &&& post.index@ == pre.index@.update(v, pre.next)
    &&& post.low@ == pre.low@.update(v, pre.next)
    &&& post.on_stack@ == pre.on_stack@.update(v, true)
    &&& post.stack@ == pre.stack@.push(v as usize)
    &&& post.next == pre.next + 1
    &&& post.components@ == pre.components@
    &&& pre.call@.len() == 0 ==> post.call@ == seq![Frame { node: v as usize, cursor: 0 }]
    &&& pre.call@.len() > 0 ==> {
        let top = pre.call@.last();
        &&& top.cursor < out[top.node as int]@.len()
        &&& top.cursor < usize::MAX
        &&& out[top.node as int]@[top.cursor as int].to == v
        &&& post.call@ == pre.call@.update(
            pre.call@.len() - 1,
            Frame { node: top.node, cursor: (top.cursor + 1) as usize },
        ).push(Frame { node: v as usize, cursor: 0 })
    }
}

proof fn lemma_enter_basic(out: Seq<Vec<Edge>>, pre: Walk, post: Walk, v: int)
    requires
        pre.inv(out),
        enters(out, pre, post, v),
    ensures
        undisturbed(out, pre, post, v),
        !pre.held(v),
        post.held(v),
        post.index@.len() == out.len(),
        pre.index@.len() == out.len(),
        pre.low@.len() == out.len(),
        pre.on_stack@.len() == out.len(),
        post.call@.len() == pre.call@.len() + 1,
        post.open_at(pre.call@.len() as int) == v,
        well_wired(out),
{
    reveal(Walk::shape);
    reveal(Walk::stack_shape);
    reveal(Walk::call_shape);
    assert(!pre.held(v));
}

proof fn lemma_enter_shape(out: Seq<Vec<Edge>>, pre: Walk, post: Walk, v: int)
    requires
        pre.inv(out),
        enters(out, pre, post, v),
        undisturbed(out, pre, post, v),
    ensures
        post.shape(out),
        unvisited(post.index@, out.len() as int) < unvisited(pre.index@, out.len() as int),
{
    reveal(Walk::shape);
    lemma_unvisited_update(pre.index@, out.len() as int, v, pre.next);
}

proof fn lemma_enter_stack(out: Seq<Vec<Edge>>, pre: Walk, post: Walk, v: int)
    requires
        pre.inv(out),
        enters(out, pre, post, v),
        undisturbed(out, pre, post, v),
        pre.on_stack@.len() == out.len(),
        pre.index@.len() == out.len(),
    ensures
        post.stack_shape(out),
{
    reveal(Walk::stack_shape);
    let n = out.len() as int;
    let len = pre.stack@.len() as int;
    assert(post.stack@[len] == v);
    assert forall|x: int| 0 <= x < n && #[trigger] post.held(x) implies post.stacked(x) by {
        reveal(Walk::stacked);
        if x != v {
            assert(pre.held(x));
            assert(pre.stacked(x));
            let p = choose|p: int| 0 <= p < pre.stack@.len() && #[trigger] pre.stack@[p] == x;
            assert(post.stack@[p] == x);
        } else {
            assert(post.stack@[len] == x);
        }
    }
    assert forall|p: int| 0 <= p < post.stack@.len() implies (#[trigger] post.stack@[p]) < n
        && post.held(post.stack@[p] as int) by {
        if p < len {
            assert(post.stack@[p] == pre.stack@[p]);
            assert(pre.held(pre.stack@[p] as int));
        }
    }
    assert forall|p: int, q: int|
        #![trigger post.stack@[p], post.stack@[q]]
        0 <= p < q < post.stack@.len() implies post.index@[post.stack@[p] as int]
        < post.index@[post.stack@[q] as int] by {
        assert(post.stack@[p] == pre.stack@[p]);
        assert(pre.held(pre.stack@[p] as int));
        if q < len {
            assert(post.stack@[q] == pre.stack@[q]);
            assert(pre.held(pre.stack@[q] as int));
        }
    }
}

proof fn lemma_enter_call(out: Seq<Vec<Edge>>, pre: Walk, post: Walk, v: int)
    requires
        pre.call_shape(out),
        enters(out, pre, post, v),
        undisturbed(out, pre, post, v),
        post.held(v),
        pre.index@.len() == out.len(),
        post.call@.len() == pre.call@.len() + 1,
        post.open_at(pre.call@.len() as int) == v,
    ensures
        post.call_shape(out),
{
    reveal(Walk::call_shape);
    let n = out.len() as int;
    let m = pre.call@.len() as int;
    assert forall|i: int, j: int|
        #![trigger post.open_at(i), post.open_at(j)]
        0 <= i < j < post.call@.len() implies post.index@[post.open_at(i)]
        < post.index@[post.open_at(j)] by {
        assert(pre.held(pre.open_at(i)));
        if j < m {
            assert(pre.held(pre.open_at(j)));
            assert(pre.index@[pre.open_at(i)] < pre.index@[pre.open_at(j)]);
        }
    }
}

proof fn lemma_enter_links(out: Seq<Vec<Edge>>, pre: Walk, post: Walk, v: int)
    requires
        pre.low_links(out),
        pre.leads_back(out),
        enters(out, pre, post, v),
        undisturbed(out, pre, post, v),
        post.held(v),
        !pre.held(v),
        pre.index@.len() == out.len(),
        pre.low@.len() == out.len(),
        post.call@.len() == pre.call@.len() + 1,
        post.open_at(pre.call@.len() as int) == v,
    ensures
        post.low_links(out),
        post.leads_back(out),
{
    reveal(Walk::low_links);
    reveal(Walk::leads_back);
    let n = out.len() as int;
    let m = pre.call@.len() as int;
    lemma_reaches_itself(out, v);
    assert forall|i: int| 0 <= i < post.call@.len() implies post.low@[#[trigger] post.open_at(i)]
        <= post.index@[post.open_at(i)] && post.low_witness(out, post.open_at(i)) by {
        reveal(Walk::low_witness);
        if i < m {
            let g = pre.open_at(i);
            assert(pre.low_witness(out, g));
            let w = choose|w: int|
                0 <= w < n && #[trigger] pre.held(w) && pre.index@[w] == pre.low@[g] && reaches(
                    out,
                    g,
                    w,
                );
            assert(post.held(w));
            assert(post.index@[w] == post.low@[g]);
        } else {
            assert(post.held(v) && post.index@[v] == post.low@[v]);
        }
    }
    assert forall|x: int| 0 <= x < n && #[trigger] post.held(x) implies post.back_witness(
        out,
        x,
    ) by {
        reveal(Walk::back_witness);
        if x == v {
            assert(post.index@[post.open_at(m)] <= post.index@[x]);
        } else {
            assert(pre.held(x));
            assert(pre.back_witness(out, x));
            let i = choose|i: int|
                0 <= i < m && pre.index@[#[trigger] pre.open_at(i)] <= pre.index@[x] && reaches(
                    out,
                    x,
                    pre.open_at(i),
                );
            assert(post.index@[post.open_at(i)] <= post.index@[x]);
        }
    }
}

proof fn lemma_enter_on(out: Seq<Vec<Edge>>, pre: Walk, post: Walk, v: int)
    requires
        pre.leads_on(out),
        pre.call_shape(out),
        enters(out, pre, post, v),
        undisturbed(out, pre, post, v),
        pre.index@.len() == out.len(),
        post.call@.len() == pre.call@.len() + 1,
        post.open_at(pre.call@.len() as int) == v,
    ensures
        post.leads_on(out),
{
    reveal(Walk::leads_on);
    reveal(Walk::call_shape);
    let n = out.len() as int;
    let m = pre.call@.len() as int;
    lemma_reaches_itself(out, v);
    assert forall|i: int, x: int|
        #![trigger post.open_at(i), post.held(x)]
        0 <= i < post.call@.len() && 0 <= x < n && post.held(x) && post.index@[post.open_at(i)]
            <= post.index@[x] implies reaches(out, post.open_at(i), x) by {
        if i == m {
            if x != v {
                assert(pre.held(x));
            }
        } else if x != v {
            assert(pre.held(x));
            assert(pre.index@[pre.open_at(i)] <= pre.index@[x]);
        } else {
            let top = pre.open_at(m - 1);
            assert(pre.held(top));
            if i < m - 1 {
                assert(pre.index@[pre.open_at(i)] < pre.index@[pre.open_at(m - 1)]);
            }
            assert(reaches(out, pre.open_at(i), top));
            assert(connects(out, top, v)) by {
                assert(out[top]@[pre.call@[m - 1].cursor as int].to == v);
            }
            lemma_connection_reaches(out, top, v);
            lemma_reaches_transitive(out, pre.open_at(i), top, v);
        }
    }
}

proof fn lemma_enter_open(out: Seq<Vec<Edge>>, pre: Walk, post: Walk, v: int)
    requires
        enters(out, pre, post, v),
        undisturbed(out, pre, post, v),
        post.call@.len() == pre.call@.len() + 1,
        post.open_at(pre.call@.len() as int) == v,
    ensures
        post.is_open(v),
        forall|x: int| x != v ==> #[trigger] post.is_open(x) == pre.is_open(x),
{
    let m = pre.call@.len() as int;
    assert forall|x: int| x != v implies #[trigger] post.is_open(x) == pre.is_open(x) by {
        if post.is_open(x) {
            let i = choose|i: int| 0 <= i < post.call@.len() && #[trigger] post.open_at(i) == x;
            assert(pre.open_at(i) == x);
        }
        if pre.is_open(x) {
            let i = choose|i: int| 0 <= i < m && #[trigger] pre.open_at(i) == x;
            assert(post.open_at(i) == x);
        }
    }
}

proof fn lemma_enter_followed(out: Seq<Vec<Edge>>, pre: Walk, post: Walk, v: int)
    requires
        pre.followed(out),
        pre.low_links(out),
        well_wired(out),
        enters(out, pre, post, v),
        undisturbed(out, pre, post, v),
        pre.index@.len() == out.len(),
        pre.low@.len() == out.len(),
        post.call@.len() == pre.call@.len() + 1,
        post.open_at(pre.call@.len() as int) == v,
    ensures
        post.followed(out),
{
    let n = out.len() as int;
    let m = pre.call@.len() as int;
    lemma_enter_open(out, pre, post, v);
    assert forall|i: int, k: int|
        #![trigger post.open_at(i), out[post.open_at(i)]@[k]]
        0 <= i < post.call@.len() && 0 <= k < post.call@[i].cursor implies post.seen(
        out[post.open_at(i)]@[k].to as int,
    ) && (post.held(out[post.open_at(i)]@[k].to as int) ==> post.low@[post.open_at(i)]
        <= post.index@[out[post.open_at(i)]@[k].to as int]) by {
        reveal(Walk::followed);
        reveal(Walk::low_links);
        let g = pre.open_at(i);
        let w = out[g]@[k].to as int;
        assert(w < n);
        assert(pre.held(g));
        if k < pre.call@[i].cursor {
            assert(pre.seen(out[pre.open_at(i)]@[k].to as int));
            assert(w != v);
        } else {
            assert(i == m - 1 && k == pre.call@[i].cursor);
            assert(w == v);
            assert(pre.low@[pre.open_at(i)] <= pre.index@[pre.open_at(i)]);
        }
    }
    assert forall|x: int, k: int|
        0 <= x < n && post.held(x) && !post.is_open(x) && 0 <= k < out[x]@.len() implies post.seen(
        (#[trigger] out[x]@[k]).to as int,
    ) by {
        reveal(Walk::followed);
        assert(x != v);
        assert(pre.held(x) && !pre.is_open(x));
        assert(pre.seen(out[x]@[k].to as int));
        assert(out[x]@[k].to < n);
    }
    assert forall|x: int, k: int, i: int|
        #![trigger out[x]@[k], post.owned_by(x, i)]
        0 <= x < n && post.held(x) && !post.is_open(x) && 0 <= k < out[x]@.len() && post.owned_by(
            x,
            i,
        ) && post.held(out[x]@[k].to as int) implies post.low@[post.open_at(i)]
        <= post.index@[out[x]@[k].to as int] by {
        reveal(Walk::followed);
        assert(x != v);
        assert(pre.held(x) && !pre.is_open(x));
        assert(pre.seen(out[x]@[k].to as int));
        assert(out[x]@[k].to < n);
        assert(i < m);
        assert(pre.held(pre.open_at(i)));
        if i + 1 < m {
            assert(pre.held(pre.open_at(i + 1)));
            assert(post.open_at(i + 1) == pre.open_at(i + 1));
        }
        assert(pre.owned_by(x, i));
    }
    reveal(Walk::followed);
}

proof fn lemma_enter_closed(out: Seq<Vec<Edge>>, pre: Walk, post: Walk, v: int)
    requires
        pre.closed_off(out),
        enters(out, pre, post, v),
        undisturbed(out, pre, post, v),
        pre.index@.len() == out.len(),
        pre.on_stack@.len() == out.len(),
    ensures
        post.closed_off(out),
{
    reveal(Walk::closed_off);
    let n = out.len() as int;
    assert forall|c: int, k: int|
        0 <= c < post.components@.len() && 0 <= k < post.components@[c]@.len() implies (
    #[trigger] post.components@[c]@[k]) < n && post.seen(post.components@[c]@[k] as int)
        && !post.held(post.components@[c]@[k] as int) by {
        let x = pre.components@[c]@[k] as int;
        assert(x < n && pre.seen(x) && !pre.held(x));
    }
}

/// A new slot joins the walk.
proof fn lemma_enter(out: Seq<Vec<Edge>>, pre: Walk, post: Walk, v: int)
    requires
        pre.inv(out),
        enters(out, pre, post, v),
    ensures
        post.inv(out),
        unvisited(post.index@, out.len() as int) < unvisited(pre.index@, out.len() as int),
{
    lemma_enter_basic(out, pre, post, v);
    lemma_enter_shape(out, pre, post, v);
    lemma_enter_stack(out, pre, post, v);
    lemma_enter_call(out, pre, post, v);
    lemma_enter_links(out, pre, post, v);
    lemma_enter_on(out, pre, post, v);
    lemma_enter_followed(out, pre, post, v);
    lemma_enter_closed(out, pre, post, v);
}

/// A connection of the top slot is followed to a slot that was met before.
spec fn follows(out: Seq<Vec<Edge>>, pre: Walk, post: Walk) -> bool {
    let top = pre.call@.last();
    let node = top.node as int;
    let child = out[node]@[top.cursor as int].to as int;
    &&& pre.call@.len() > 0
    &&& top.cursor < out[node]@.len()
    &&& top.cursor < usize::MAX
    &&& pre.seen(child)
    &&& post.low@ == (if pre.held(child) && pre.index@[child] < pre.low@[node] {
        pre.low@.update(node, pre.index@[child])
    } else {
        pre.low@
    })
    &&& post.call@ == pre.call@.update(
        pre.call@.len() - 1,
        Frame { node: top.node, cursor: (top.cursor + 1) as usize },
    )
    &&& post.index@ == pre.index@
    &&& post.on_stack@ == pre.on_stack@
    &&& post.stack@ == pre.stack@
    &&& post.next == pre.next
    &&& post.components@ == pre.components@
}

/// The facts about the open slots that every step of the walk starts from.
spec fn opening(out: Seq<Vec<Edge>>, pre: Walk) -> bool {
    let n = out.len() as int;
    let m = pre.call@.len() as int;
    &&& well_wired(out)
    &&& pre.index@.len() == n
    &&& pre.low@.len() == n
    &&& pre.on_stack@.len() == n
    &&& forall|i: int|
        0 <= i < m ==> 0 <= #[trigger] pre.open_at(i) < n && pre.held(pre.open_at(i))
            && pre.call@[i].cursor <= out[pre.open_at(i)]@.len()
    &&& forall|i: int|
        0 <= i < m - 1 ==> pre.index@[#[trigger] pre.open_at(i)] < pre.index@[pre.open_at(m - 1)]
            && pre.open_at(i) != pre.open_at(m - 1)
    &&& forall|x: int|
        0 <= x < n && #[trigger] pre.held(x) ==> pre.seen(x) && pre.index@[x] < pre.next
}

proof fn lemma_opening(out: Seq<Vec<Edge>>, pre: Walk)
    requires
        pre.inv(out),
    ensures
        opening(out, pre),
{
    reveal(Walk::shape);
    reveal(Walk::stack_shape);
    reveal(Walk::call_shape);
    let m = pre.call@.len() as int;
    assert forall|i: int| 0 <= i < m - 1 implies pre.index@[#[trigger] pre.open_at(i)]
        < pre.index@[pre.open_at(m - 1)] && pre.open_at(i) != pre.open_at(m - 1) by {
        assert(pre.index@[pre.open_at(i)] < pre.index@[pre.open_at(m - 1)]);
    }
}

proof fn lemma_follow_shapes(out: Seq<Vec<Edge>>, pre: Walk, post: Walk)
    requires
        pre.inv(out),
        follows(out, pre, post),
        opening(out, pre),
    ensures
        post.shape(out),
        post.stack_shape(out),
        post.call_shape(out),
        post.closed_off(out),
        forall|i: int|
            #![trigger post.open_at(i)]
            #![trigger pre.open_at(i)]
            0 <= i < pre.call@.len() ==> post.open_at(i) == pre.open_at(i),
        forall|x: int| #[trigger] post.is_open(x) == pre.is_open(x),
        pending(out, post.call@) < pending(out, pre.call@),
{
    let m = pre.call@.len() as int;
    assert(0 <= pre.open_at(m - 1) < out.len());
    assert(post.low@.len() == out.len());
    assert(post.shape(out)) by {
        reveal(Walk::shape);
        assert forall|v: int| 0 <= v < out.len() && post.seen(v) implies (
        #[trigger] post.index@[v]) < post.next by {
            assert(pre.seen(v));
        }
        assert forall|u: int, v: int|
            #![trigger post.index@[u], post.index@[v]]
            0 <= u < out.len() && 0 <= v < out.len() && u != v && post.seen(u) implies post.index@[u]
            != post.index@[v] by {
            assert(pre.seen(u));
        }
    }
    assert forall|i: int|
        #![trigger post.open_at(i)]
        #![trigger pre.open_at(i)]
        0 <= i < pre.call@.len() implies post.open_at(i) == pre.open_at(i) by {}
    assert(post.stack_shape(out)) by {
        reveal(Walk::stack_shape);
        reveal(Walk::stacked);
        assert forall|x: int| 0 <= x < out.len() && #[trigger] post.held(x) implies post.stacked(
            x,
        ) by {
            assert(pre.held(x));
            assert(pre.stacked(x));
            let p = choose|p: int| 0 <= p < pre.stack@.len() && #[trigger] pre.stack@[p] == x;
            assert(post.stack@[p] == x);
        }
        assert forall|x: int| 0 <= x < out.len() && #[trigger] post.held(x) implies post.seen(
            x,
        ) by {
            assert(pre.held(x));
        }
        assert forall|p: int| 0 <= p < post.stack@.len() implies (#[trigger] post.stack@[p])
            < out.len() && post.held(post.stack@[p] as int) by {
            assert(pre.held(pre.stack@[p] as int));
        }
    }
    assert(post.call_shape(out)) by {
        reveal(Walk::call_shape);
        assert forall|i: int, j: int|
            #![trigger post.open_at(i), post.open_at(j)]
            0 <= i < j < post.call@.len() implies post.index@[post.open_at(i)]
            < post.index@[post.open_at(j)] by {
            assert(pre.index@[pre.open_at(i)] < pre.index@[pre.open_at(j)]);
        }
        assert forall|i: int| 0 <= i < post.call@.len() implies 0 <= #[trigger] post.open_at(i)
            < out.len() && post.held(post.open_at(i)) && post.call@[i].cursor
            <= out[post.open_at(i)]@.len() by {
            assert(pre.held(pre.open_at(i)));
        }
    }
    assert(post.closed_off(out)) by {
        reveal(Walk::closed_off);
        assert forall|c: int, k: int|
            0 <= c < post.components@.len() && 0 <= k < post.components@[c]@.len() implies (
        #[trigger] post.components@[c]@[k]) < out.len() && post.seen(
            post.components@[c]@[k] as int,
        ) && !post.held(post.components@[c]@[k] as int) by {
            let x = pre.components@[c]@[k] as int;
            assert(pre.seen(x) && !pre.held(x));
        }
    }
    assert forall|x: int| #[trigger] post.is_open(x) == pre.is_open(x) by {
        if post.is_open(x) {
            let i = choose|i: int| 0 <= i < m && #[trigger] post.open_at(i) == x;
            assert(pre.open_at(i) == x);
        }
        if pre.is_open(x) {
            let i = choose|i: int| 0 <= i < m && #[trigger] pre.open_at(i) == x;
            assert(post.open_at(i) == x);
        }
    }
    assert(post.call@.drop_last() =~= pre.call@.drop_last());
    assert(pre.open_at(m - 1) == pre.call@.last().node);
}

proof fn lemma_follow_links(out: Seq<Vec<Edge>>, pre: Walk, post: Walk)
    requires
        pre.inv(out),
        follows(out, pre, post),
        opening(out, pre),
        forall|i: int|
            #![trigger post.open_at(i)]
            #![trigger pre.open_at(i)]
            0 <= i < pre.call@.len() ==> post.open_at(i) == pre.open_at(i),
    ensures
        post.low_links(out),
        post.leads_back(out),
        post.leads_on(out),
{
    let n = out.len() as int;
    let m = pre.call@.len() as int;
    let top = pre.call@.last();
    let node = top.node as int;
    let child = out[node]@[top.cursor as int].to as int;
    assert(pre.open_at(m - 1) == node);
    assert(out[node]@[top.cursor as int].to < n);
    assert(post.low_links(out)) by {
        reveal(Walk::low_links);
        assert forall|i: int| 0 <= i < post.call@.len() implies post.low@[
            #[trigger] post.open_at(i)] <= post.index@[post.open_at(i)] && post.low_witness(
            out,
            post.open_at(i),
        ) by {
            reveal(Walk::low_witness);
            let g = pre.open_at(i);
            assert(pre.low@[g] <= pre.index@[g]);
            if post.low@[g] == pre.low@[g] {
                assert(pre.low_witness(out, g));
                let w = choose|w: int|
                    0 <= w < n && #[trigger] pre.held(w) && pre.index@[w] == pre.low@[g]
                        && reaches(out, g, w);
                assert(post.held(w));
            } else {
                assert(g == node);
                assert(connects(out, node, child));
                lemma_connection_reaches(out, node, child);
                assert(post.held(child));
            }
        }
    }
    assert(post.leads_back(out)) by {
        reveal(Walk::leads_back);
        reveal(Walk::back_witness);
        assert forall|x: int| 0 <= x < n && #[trigger] post.held(x) implies post.back_witness(
            out,
            x,
        ) by {
            assert(pre.held(x));
            assert(pre.back_witness(out, x));
            let i = choose|i: int|
                0 <= i < m && pre.index@[#[trigger] pre.open_at(i)] <= pre.index@[x] && reaches(
                    out,
                    x,
                    pre.open_at(i),
                );
            assert(post.index@[post.open_at(i)] <= post.index@[x]);
        }
    }
    assert(post.leads_on(out)) by {
        reveal(Walk::leads_on);
        assert forall|i: int, x: int|
            #![trigger post.open_at(i), post.held(x)]
            0 <= i < post.call@.len() && 0 <= x < n && post.held(x) && post.index@[post.open_at(i)]
                <= post.index@[x] implies reaches(out, post.open_at(i), x) by {
            assert(pre.held(x));
            assert(pre.index@[pre.open_at(i)] <= pre.index@[x]);
        }
    }
}

proof fn lemma_follow_followed(out: Seq<Vec<Edge>>, pre: Walk, post: Walk)
    requires
        pre.followed(out),
        follows(out, pre, post),
        opening(out, pre),
        forall|i: int|
            #![trigger post.open_at(i)]
            #![trigger pre.open_at(i)]
            0 <= i < pre.call@.len() ==> post.open_at(i) == pre.open_at(i),
        forall|x: int| #[trigger] post.is_open(x) == pre.is_open(x),
    ensures
        post.followed(out),
{
    let n = out.len() as int;
    let m = pre.call@.len() as int;
    let top = pre.call@.last();
    let node = top.node as int;
    let child = out[node]@[top.cursor as int].to as int;
    assert(pre.open_at(m - 1) == node);
    assert forall|x: int| 0 <= x < n implies #[trigger] post.low@[x] <= pre.low@[x] by {}
    assert forall|i: int, k: int|
        #![trigger post.open_at(i), out[post.open_at(i)]@[k]]
        0 <= i < post.call@.len() && 0 <= k < post.call@[i].cursor implies post.seen(
        out[post.open_at(i)]@[k].to as int,
    ) && (post.held(out[post.open_at(i)]@[k].to as int) ==> post.low@[post.open_at(i)]
        <= post.index@[out[post.open_at(i)]@[k].to as int]) by {
        reveal(Walk::followed);
        let g = pre.open_at(i);
        let w = out[g]@[k].to as int;
        assert(w < n);
        assert(post.low@[g] <= pre.low@[g]);
        if k < pre.call@[i].cursor {
            assert(pre.seen(out[pre.open_at(i)]@[k].to as int));
        } else {
            assert(i == m - 1 && k == top.cursor && w == child);
        }
    }
    assert forall|x: int, k: int|
        0 <= x < n && post.held(x) && !post.is_open(x) && 0 <= k < out[x]@.len() implies post.seen(
        (#[trigger] out[x]@[k]).to as int,
    ) by {
        reveal(Walk::followed);
        assert(pre.held(x) && !pre.is_open(x));
        assert(pre.seen(out[x]@[k].to as int));
    }
    assert forall|x: int, k: int, i: int|
        #![trigger out[x]@[k], post.owned_by(x, i)]
        0 <= x < n && post.held(x) && !post.is_open(x) && 0 <= k < out[x]@.len() && post.owned_by(
            x,
            i,
        ) && post.held(out[x]@[k].to as int) implies post.low@[post.open_at(i)]
        <= post.index@[out[x]@[k].to as int] by {
        reveal(Walk::followed);
        assert(pre.held(x) && !pre.is_open(x));
        if i + 1 < m {
            assert(post.open_at(i + 1) == pre.open_at(i + 1));
        }
        assert(pre.owned_by(x, i));
        assert(pre.held(out[x]@[k].to as int));
        assert(post.low@[pre.open_at(i)] <= pre.low@[pre.open_at(i)]);
    }
    reveal(Walk::followed);
}

proof fn lemma_follow(out: Seq<Vec<Edge>>, pre: Walk, post: Walk)
    requires
        pre.inv(out),
        follows(out, pre, post),
    ensures
        post.inv(out),
        pending(out, post.call@) < pending(out, pre.call@),
{
    lemma_opening(out, pre);
    lemma_follow_shapes(out, pre, post);
    lemma_follow_links(out, pre, post);
    lemma_follow_followed(out, pre, post);
}

/// The top slot closes with a low link below its own index.
spec fn retires(out: Seq<Vec<Edge>>, pre: Walk, post: Walk) -> bool {
    let m = pre.call@.len() as int;
    let node = pre.open_at(m - 1);
    &&& m > 0
    &&& pre.call@[m - 1].cursor == out[node]@.len()
    &&& pre.low@[node] != pre.index@[node]
    &&& post.call@ == pre.call@.drop_last()
    &&& post.low@ == (if m > 1 && pre.low@[node] < pre.low@[pre.open_at(m - 2)] {
        pre.low@.update(pre.open_at(m - 2), pre.low@[node])
    } else {
        pre.low@
    })
    &&& post.index@ == pre.index@
    &&& post.on_stack@ == pre.on_stack@
    &&& post.stack@ == pre.stack@
    &&& post.next == pre.next
    &&& post.components@ == pre.components@
}

/// A slot whose low link lies below its index reaches an older open slot.
proof fn lemma_escape(out: Seq<Vec<Edge>>, pre: Walk) -> (i: int)
    requires
        pre.inv(out),
        opening(out, pre),
        pre.call@.len() > 0,
        pre.low@[pre.open_at(pre.call@.len() - 1)] != pre.index@[pre.open_at(
            pre.call@.len() - 1,
        )],
    ensures
        0 <= i < pre.call@.len() - 1,
        reaches(out, pre.open_at(pre.call@.len() - 1), pre.open_at(i)),
        low_reached(out, pre, pre.open_at(pre.call@.len() - 1)),
{
    let m = pre.call@.len() as int;
    let node = pre.open_at(m - 1);
    let w = lemma_low_of(out, pre, m - 1);
    let i = lemma_back_of(out, pre, w);
    lemma_reaches_transitive(out, node, w, pre.open_at(i));
    i
}

proof fn lemma_low_of(out: Seq<Vec<Edge>>, pre: Walk, i: int) -> (w: int)
    requires
        pre.low_links(out),
        0 <= i < pre.call@.len(),
    ensures
        0 <= w < out.len(),
        pre.held(w),
        pre.index@[w] == pre.low@[pre.open_at(i)],
        pre.low@[pre.open_at(i)] <= pre.index@[pre.open_at(i)],
        reaches(out, pre.open_at(i), w),
{
    reveal(Walk::low_links);
    reveal(Walk::low_witness);
    let v = pre.open_at(i);
    assert(pre.low_witness(out, v));
    choose|w: int|
        0 <= w < out.len() && #[trigger] pre.held(w) && pre.index@[w] == pre.low@[v] && reaches(
            out,
            v,
            w,
        )
}

proof fn lemma_back_of(out: Seq<Vec<Edge>>, pre: Walk, x: int) -> (i: int)
    requires
        pre.leads_back(out),
        0 <= x < out.len(),
        pre.held(x),
    ensures
        0 <= i < pre.call@.len(),
        pre.index@[pre.open_at(i)] <= pre.index@[x],
        reaches(out, x, pre.open_at(i)),
{
    reveal(Walk::leads_back);
    reveal(Walk::back_witness);
    assert(pre.back_witness(out, x));
    choose|i: int|
        0 <= i < pre.call@.len() && pre.index@[#[trigger] pre.open_at(i)] <= pre.index@[x]
            && reaches(out, x, pre.open_at(i))
}

/// `v` reaches a held slot whose index is its low link.
spec fn low_reached(out: Seq<Vec<Edge>>, pre: Walk, v: int) -> bool {
    exists|w: int|
        0 <= w < out.len() && #[trigger] pre.held(w) && pre.index@[w] == pre.low@[v] && reaches(
            out,
            v,
            w,
        )
}

proof fn lemma_retire_shapes(out: Seq<Vec<Edge>>, pre: Walk, post: Walk)
    requires
        pre.inv(out),
        retires(out, pre, post),
        opening(out, pre),
    ensures
        post.shape(out),
        post.stack_shape(out),
        post.call_shape(out),
        post.closed_off(out),
        forall|i: int|
            #![trigger post.open_at(i)]
            0 <= i < pre.call@.len() - 1 ==> post.open_at(i) == pre.open_at(i),
        forall|x: int|
            #[trigger] post.is_open(x) == (pre.is_open(x) && x != pre.open_at(
                pre.call@.len() - 1,
            )),
        pending(out, post.call@) < pending(out, pre.call@),
{
    let m = pre.call@.len() as int;
    assert(0 <= pre.open_at(m - 1) < out.len());
    assert(post.low@.len() == out.len());
    assert(post.shape(out)) by {
        reveal(Walk::shape);
        assert forall|v: int| 0 <= v < out.len() && post.seen(v) implies (
        #[trigger] post.index@[v]) < post.next by {
            assert(pre.seen(v));
        }
        assert forall|u: int, v: int|
            #![trigger post.index@[u], post.index@[v]]
            0 <= u < out.len() && 0 <= v < out.len() && u != v && post.seen(u) implies post.index@[u]
            != post.index@[v] by {
            assert(pre.seen(u));
        }
    }
    assert forall|i: int|
        #![trigger post.open_at(i)]
        0 <= i < m - 1 implies post.open_at(i) == pre.open_at(i) by {}
    assert(post.stack_shape(out)) by {
        reveal(Walk::stack_shape);
        reveal(Walk::stacked);
        assert forall|x: int| 0 <= x < out.len() && #[trigger] post.held(x) implies post.stacked(x)
            && post.seen(x) by {
            assert(pre.held(x));
            assert(pre.stacked(x));
            let p = choose|p: int| 0 <= p < pre.stack@.len() && #[trigger] pre.stack@[p] == x;
            assert(post.stack@[p] == x);
        }
        assert forall|p: int| 0 <= p < post.stack@.len() implies (#[trigger] post.stack@[p])
            < out.len() && post.held(post.stack@[p] as int) by {
            assert(pre.held(pre.stack@[p] as int));
        }
    }
    assert(post.call_shape(out)) by {
        reveal(Walk::call_shape);
        assert forall|i: int, j: int|
            #![trigger post.open_at(i), post.open_at(j)]
            0 <= i < j < post.call@.len() implies post.index@[post.open_at(i)]
            < post.index@[post.open_at(j)] by {
            assert(pre.index@[pre.open_at(i)] < pre.index@[pre.open_at(j)]);
        }
        assert forall|i: int| 0 <= i < post.call@.len() implies 0 <= #[trigger] post.open_at(i)
            < out.len() && post.held(post.open_at(i)) && post.call@[i].cursor
            <= out[post.open_at(i)]@.len() by {
            assert(pre.held(pre.open_at(i)));
        }
    }
    assert(post.closed_off(out)) by {
        reveal(Walk::closed_off);
        assert forall|c: int, k: int|
            0 <= c < post.components@.len() && 0 <= k < post.components@[c]@.len() implies (
        #[trigger] post.components@[c]@[k]) < out.len() && post.seen(
            post.components@[c]@[k] as int,
        ) && !post.held(post.components@[c]@[k] as int) by {
            let x = pre.components@[c]@[k] as int;
            assert(pre.seen(x) && !pre.held(x));
        }
    }
    lemma_top_closes(out, pre, post);
}

proof fn lemma_top_closes(out: Seq<Vec<Edge>>, pre: Walk, post: Walk)
    requires
        opening(out, pre),
        pre.call@.len() > 0,
        post.call@ == pre.call@.drop_last(),
    ensures
        forall|x: int|
            #[trigger] post.is_open(x) == (pre.is_open(x) && x != pre.open_at(
                pre.call@.len() - 1,
            )),
        pending(out, post.call@) < pending(out, pre.call@),
{
    let m = pre.call@.len() as int;
    let node = pre.open_at(m - 1);
    assert forall|x: int| #[trigger] post.is_open(x) == (pre.is_open(x) && x != node) by {
        if post.is_open(x) {
            let i = choose|i: int| 0 <= i < m - 1 && #[trigger] post.open_at(i) == x;
            assert(pre.open_at(i) == x);
        }
        if pre.is_open(x) && x != node {
            let i = choose|i: int| 0 <= i < m && #[trigger] pre.open_at(i) == x;
            assert(post.open_at(i) == x);
        }
    }
}

proof fn lemma_retire_links(out: Seq<Vec<Edge>>, pre: Walk, post: Walk)
    requires
        pre.inv(out),
        retires(out, pre, post),
        opening(out, pre),
        forall|i: int|
            #![trigger post.open_at(i)]
            0 <= i < pre.call@.len() - 1 ==> post.open_at(i) == pre.open_at(i),
    ensures
        post.low_links(out),
        post.leads_back(out),
        post.leads_on(out),
{
    let n = out.len() as int;
    let m = pre.call@.len() as int;
    let node = pre.open_at(m - 1);
    let older = lemma_escape(out, pre);
    assert(pre.held(node));
    assert(post.low_links(out)) by {
        reveal(Walk::low_links);
        assert forall|i: int| 0 <= i < post.call@.len() implies post.low@[
            #[trigger] post.open_at(i)] <= post.index@[post.open_at(i)] && post.low_witness(
            out,
            post.open_at(i),
        ) by {
            reveal(Walk::low_witness);
            let g = pre.open_at(i);
            assert(pre.low@[g] <= pre.index@[g]);
            if post.low@[g] == pre.low@[g] {
                assert(pre.low_witness(out, g));
                let w = choose|w: int|
                    0 <= w < n && #[trigger] pre.held(w) && pre.index@[w] == pre.low@[g]
                        && reaches(out, g, w);
                assert(post.held(w));
            } else {
                assert(g == pre.open_at(m - 2));
                let w = choose|w: int|
                    0 <= w < n && #[trigger] pre.held(w) && pre.index@[w] == pre.low@[node]
                        && reaches(out, node, w);
                assert(reaches(out, g, node)) by {
                    reveal(Walk::leads_on);
                    assert(pre.index@[pre.open_at(m - 2)] < pre.index@[node]);
                    assert(pre.held(node));
                }
                lemma_reaches_transitive(out, g, node, w);
                assert(post.held(w));
            }
        }
    }
    assert(post.leads_back(out)) by {
        reveal(Walk::leads_back);
        reveal(Walk::back_witness);
        assert forall|x: int| 0 <= x < n && #[trigger] post.held(x) implies post.back_witness(
            out,
            x,
        ) by {
            assert(pre.held(x));
            assert(pre.back_witness(out, x));
            let i = choose|i: int|
                0 <= i < m && pre.index@[#[trigger] pre.open_at(i)] <= pre.index@[x] && reaches(
                    out,
                    x,
                    pre.open_at(i),
                );
            if i < m - 1 {
                assert(post.index@[post.open_at(i)] <= post.index@[x]);
            } else {
                lemma_reaches_transitive(out, x, node, pre.open_at(older));
                assert(pre.index@[pre.open_at(older)] < pre.index@[node]);
                assert(post.index@[post.open_at(older)] <= post.index@[x]);
            }
        }
    }
    assert(post.leads_on(out)) by {
        reveal(Walk::leads_on);
        assert forall|i: int, x: int|
            #![trigger post.open_at(i), post.held(x)]
            0 <= i < post.call@.len() && 0 <= x < n && post.held(x) && post.index@[post.open_at(i)]
                <= post.index@[x] implies reaches(out, post.open_at(i), x) by {
            assert(pre.held(x));
            assert(pre.index@[pre.open_at(i)] <= pre.index@[x]);
        }
    }
}

proof fn lemma_retire_followed(out: Seq<Vec<Edge>>, pre: Walk, post: Walk)
    requires
        pre.followed(out),
        retires(out, pre, post),
        opening(out, pre),
        forall|i: int|
            #![trigger post.open_at(i)]
            0 <= i < pre.call@.len() - 1 ==> post.open_at(i) == pre.open_at(i),
        forall|x: int|
            #[trigger] post.is_open(x) == (pre.is_open(x) && x != pre.open_at(
                pre.call@.len() - 1,
            )),
    ensures
        post.followed(out),
{
    let n = out.len() as int;
    let m = pre.call@.len() as int;
    let node = pre.open_at(m - 1);
    assert forall|x: int| 0 <= x < n implies #[trigger] post.low@[x] <= pre.low@[x] by {}
    assert forall|i: int, k: int|
        #![trigger post.open_at(i), out[post.open_at(i)]@[k]]
        0 <= i < post.call@.len() && 0 <= k < post.call@[i].cursor implies post.seen(
        out[post.open_at(i)]@[k].to as int,
    ) && (post.held(out[post.open_at(i)]@[k].to as int) ==> post.low@[post.open_at(i)]
        <= post.index@[out[post.open_at(i)]@[k].to as int]) by {
        reveal(Walk::followed);
        let g = pre.open_at(i);
        assert(out[g]@[k].to < n);
        assert(post.low@[g] <= pre.low@[g]);
        assert(pre.seen(out[pre.open_at(i)]@[k].to as int));
    }
    assert forall|x: int, k: int|
        0 <= x < n && post.held(x) && !post.is_open(x) && 0 <= k < out[x]@.len() implies post.seen(
        (#[trigger] out[x]@[k]).to as int,
    ) by {
        reveal(Walk::followed);
        assert(pre.held(x));
        if x == node {
            assert(pre.seen(out[pre.open_at(m - 1)]@[k].to as int));
        } else {
            assert(!pre.is_open(x));
            assert(pre.seen(out[x]@[k].to as int));
        }
    }
    assert forall|x: int, k: int, i: int|
        #![trigger out[x]@[k], post.owned_by(x, i)]
        0 <= x < n && post.held(x) && !post.is_open(x) && 0 <= k < out[x]@.len() && post.owned_by(
            x,
            i,
        ) && post.held(out[x]@[k].to as int) implies post.low@[post.open_at(i)]
        <= post.index@[out[x]@[k].to as int] by {
        reveal(Walk::followed);
        assert(pre.held(x));
        assert(pre.held(out[x]@[k].to as int));
        assert(post.low@[pre.open_at(i)] <= pre.low@[pre.open_at(i)]);
        if i < m - 2 {
            assert(post.open_at(i + 1) == pre.open_at(i + 1));
            assert(pre.index@[pre.open_at(i + 1)] < pre.index@[node]);
            assert(x != node);
            assert(pre.owned_by(x, i));
        } else {
            assert(i == m - 2);
            assert(post.low@[pre.open_at(m - 2)] <= pre.low@[node]);
            if x == node {
                assert(pre.low@[pre.open_at(m - 1)] <= pre.index@[out[pre.open_at(
                    m - 1,
                )]@[k].to as int]);
            } else if pre.index@[node] <= pre.index@[x] {
                assert(pre.owned_by(x, m - 1));
            } else {
                assert(pre.owned_by(x, m - 2));
            }
        }
    }
    reveal(Walk::followed);
}

proof fn lemma_retire(out: Seq<Vec<Edge>>, pre: Walk, post: Walk)
    requires
        pre.inv(out),
        retires(out, pre, post),
    ensures
        post.inv(out),
        pending(out, post.call@) < pending(out, pre.call@),
{
    lemma_opening(out, pre);
    lemma_retire_shapes(out, pre, post);
    lemma_retire_links(out, pre, post);
    lemma_retire_followed(out, pre, post);
}

/// The top slot closes as the root of a component: `lost` holds it and what
/// was held above it.
spec fn emits(out: Seq<Vec<Edge>>, pre: Walk, post: Walk, lost: Vec<usize>) -> bool {
    let m = pre.call@.len() as int;
    let node = pre.open_at(m - 1);
    &&& m > 0
    &&& pre.call@[m - 1].cursor == out[node]@.len()
    &&& pre.low@[node] == pre.index@[node]
    &&& post.call@ == pre.call@.drop_last()
    &&& post.low@ == pre.low@
    &&& post.index@ == pre.index@
    &&& post.next == pre.next
    &&& lost@.len() > 0
    &&& pre.stack@.len() >= lost@.len()
    &&& pre.stack@[pre.stack@.len() - lost@.len()] == node
    &&& forall|k: int|
        0 <= k < lost@.len() ==> #[trigger] lost@[k] == pre.stack@[pre.stack@.len() - 1 - k]
    &&& post.stack@ == pre.stack@.take(pre.stack@.len() - lost@.len())
    &&& post.on_stack@.len() == pre.on_stack@.len()
    &&& forall|x: int|
        0 <= x < out.len() ==> #[trigger] post.held(x) == (pre.held(x) && !lost@.contains(
            x as usize,
        ))
    &&& post.components@ == pre.components@.push(lost)
    &&& out.len() <= usize::MAX
}

/// What leaves the stack with the root is what was met no earlier than it.
spec fn lost_above(out: Seq<Vec<Edge>>, pre: Walk, post: Walk, lost: Vec<usize>) -> bool {
    let node = pre.open_at(pre.call@.len() - 1);
    &&& forall|x: int|
        0 <= x < out.len() ==> #[trigger] post.held(x) == (pre.held(x) && pre.index@[x]
            < pre.index@[node])
    &&& forall|k: int|
        0 <= k < lost@.len() ==> (#[trigger] lost@[k]) < out.len() && pre.held(lost@[k] as int)
            && pre.index@[node] <= pre.index@[lost@[k] as int]
    &&& forall|x: int|
        0 <= x < out.len() && #[trigger] pre.held(x) && pre.index@[node] <= pre.index@[x]
            ==> lost@.contains(x as usize)
    &&& forall|k: int, l: int|
        #![trigger lost@[k], lost@[l]]
        0 <= k < l < lost@.len() ==> lost@[k] != lost@[l]
}

proof fn lemma_lost(out: Seq<Vec<Edge>>, pre: Walk, post: Walk, lost: Vec<usize>)
    requires
        pre.stack_shape(out),
        emits(out, pre, post, lost),
        opening(out, pre),
    ensures
        lost_above(out, pre, post, lost),
{
    reveal(Walk::stack_shape);
    let n = out.len() as int;
    let node = pre.open_at(pre.call@.len() - 1);
    let len = pre.stack@.len() as int;
    let p = len - lost@.len();
    assert(pre.stack@[p] == node);
    assert forall|k: int| 0 <= k < lost@.len() implies (#[trigger] lost@[k]) < n && pre.held(
        lost@[k] as int,
    ) && pre.index@[node] <= pre.index@[lost@[k] as int] by {
        assert(lost@[k] == pre.stack@[len - 1 - k]);
        if len - 1 - k > p {
            assert(pre.index@[pre.stack@[p] as int] < pre.index@[pre.stack@[len - 1 - k] as int]);
        }
    }
    assert forall|x: int|
        0 <= x < n && #[trigger] pre.held(x) && pre.index@[node]
            <= pre.index@[x] implies lost@.contains(x as usize) by {
        assert(pre.stacked(x));
        reveal(Walk::stacked);
        let q = choose|q: int| 0 <= q < pre.stack@.len() && #[trigger] pre.stack@[q] == x;
        if q < p {
            assert(pre.index@[pre.stack@[q] as int] < pre.index@[pre.stack@[p] as int]);
        }
        assert(lost@[len - 1 - q] == x);
    }
    assert forall|k: int, l: int|
        #![trigger lost@[k], lost@[l]]
        0 <= k < l < lost@.len() implies lost@[k] != lost@[l] by {
        assert(pre.index@[pre.stack@[len - 1 - l] as int] < pre.index@[pre.stack@[len - 1
            - k] as int]);
    }
    assert forall|x: int| 0 <= x < n implies #[trigger] post.held(x) == (pre.held(x)
        && pre.index@[x] < pre.index@[node]) by {
        if pre.held(x) {
            if lost@.contains(x as usize) {
                let k = choose|k: int| 0 <= k < lost@.len() && lost@[k] == x as usize;
                assert(lost@[k] == x);
            }
        }
    }
}

proof fn lemma_emit_shapes(out: Seq<Vec<Edge>>, pre: Walk, post: Walk, lost: Vec<usize>)
    requires
        pre.inv(out),
        emits(out, pre, post, lost),
        opening(out, pre),
        lost_above(out, pre, post, lost),
    ensures
        post.shape(out),
        post.stack_shape(out),
        post.call_shape(out),
        forall|i: int|
            #![trigger post.open_at(i)]
            0 <= i < pre.call@.len() - 1 ==> post.open_at(i) == pre.open_at(i),
        forall|x: int|
            #[trigger] post.is_open(x) == (pre.is_open(x) && x != pre.open_at(
                pre.call@.len() - 1,
            )),
        pending(out, post.call@) < pending(out, pre.call@),
{
    let n = out.len() as int;
    let m = pre.call@.len() as int;
    let node = pre.open_at(m - 1);
    assert(post.shape(out)) by {
        reveal(Walk::shape);
        assert forall|v: int| 0 <= v < out.len() && post.seen(v) implies (
        #[trigger] post.index@[v]) < post.next by {
            assert(pre.seen(v));
        }
        assert forall|u: int, v: int|
            #![trigger post.index@[u], post.index@[v]]
            0 <= u < out.len() && 0 <= v < out.len() && u != v && post.seen(u) implies post.index@[u]
            != post.index@[v] by {
            assert(pre.seen(u));
        }
    }
    assert forall|i: int|
        #![trigger post.open_at(i)]
        0 <= i < m - 1 implies post.open_at(i) == pre.open_at(i) by {}
    assert(post.stack_shape(out)) by {
        reveal(Walk::stack_shape);
        let p = pre.stack@.len() - lost@.len();
        assert forall|x: int| 0 <= x < n && #[trigger] post.held(x) implies post.stacked(x)
            && post.seen(x) by {
            assert(pre.held(x));
            assert(pre.stacked(x));
            reveal(Walk::stacked);
            let q = choose|q: int| 0 <= q < pre.stack@.len() && #[trigger] pre.stack@[q] == x;
            if q >= p {
                assert(lost@[pre.stack@.len() - 1 - q] == x);
            }
            assert(post.stack@[q] == x);
        }
        assert forall|q: int| 0 <= q < post.stack@.len() implies (#[trigger] post.stack@[q]) < n
            && post.held(post.stack@[q] as int) by {
            assert(pre.held(pre.stack@[q] as int));
            assert(pre.index@[pre.stack@[q] as int] < pre.index@[pre.stack@[p] as int]);
        }
        assert forall|a: int, b: int|
            #![trigger post.stack@[a], post.stack@[b]]
            0 <= a < b < post.stack@.len() implies post.index@[post.stack@[a] as int]
            < post.index@[post.stack@[b] as int] by {
            assert(pre.index@[pre.stack@[a] as int] < pre.index@[pre.stack@[b] as int]);
        }
    }
    assert(post.call_shape(out)) by {
        reveal(Walk::call_shape);
        assert forall|i: int, j: int|
            #![trigger post.open_at(i), post.open_at(j)]
            0 <= i < j < post.call@.len() implies post.index@[post.open_at(i)]
            < post.index@[post.open_at(j)] by {
            assert(pre.index@[pre.open_at(i)] < pre.index@[pre.open_at(j)]);
        }
        assert forall|i: int| 0 <= i < post.call@.len() implies 0 <= #[trigger] post.open_at(i)
            < out.len() && post.held(post.open_at(i)) && post.call@[i].cursor
            <= out[post.open_at(i)]@.len() by {
            assert(pre.held(pre.open_at(i)));
        }
    }
    lemma_top_closes(out, pre, post);
}

proof fn lemma_emit_links(out: Seq<Vec<Edge>>, pre: Walk, post: Walk, lost: Vec<usize>)
    requires
        pre.inv(out),
        emits(out, pre, post, lost),
        opening(out, pre),
        lost_above(out, pre, post, lost),
        forall|i: int|
            #![trigger post.open_at(i)]
            0 <= i < pre.call@.len() - 1 ==> post.open_at(i) == pre.open_at(i),
    ensures
        post.low_links(out),
        post.leads_back(out),
        post.leads_on(out),
{
    let n = out.len() as int;
    let m = pre.call@.len() as int;
    let node = pre.open_at(m - 1);
    assert(post.low_links(out)) by {
        assert forall|i: int| 0 <= i < post.call@.len() implies post.low@[
            #[trigger] post.open_at(i)] <= post.index@[post.open_at(i)] && post.low_witness(
            out,
            post.open_at(i),
        ) by {
            let w = lemma_low_of(out, pre, i);
            assert(pre.index@[pre.open_at(i)] < pre.index@[node]);
            reveal(Walk::low_witness);
            assert(post.held(w));
        }
        reveal(Walk::low_links);
    }
    assert(post.leads_back(out)) by {
        assert forall|x: int| 0 <= x < n && #[trigger] post.held(x) implies post.back_witness(
            out,
            x,
        ) by {
            let i = lemma_back_of(out, pre, x);
            assert(i < m - 1);
            reveal(Walk::back_witness);
            assert(post.index@[post.open_at(i)] <= post.index@[x]);
        }
        reveal(Walk::leads_back);
    }
    assert(post.leads_on(out)) by {
        reveal(Walk::leads_on);
        assert forall|i: int, x: int|
            #![trigger post.open_at(i), post.held(x)]
            0 <= i < post.call@.len() && 0 <= x < n && post.held(x) && post.index@[post.open_at(i)]
                <= post.index@[x] implies reaches(out, post.open_at(i), x) by {
            assert(pre.held(x));
            assert(pre.index@[pre.open_at(i)] <= pre.index@[x]);
        }
    }
}

proof fn lemma_emit_followed(out: Seq<Vec<Edge>>, pre: Walk, post: Walk, lost: Vec<usize>)
    requires
        pre.followed(out),
        emits(out, pre, post, lost),
        opening(out, pre),
        lost_above(out, pre, post, lost),
        forall|i: int|
            #![trigger post.open_at(i)]
            0 <= i < pre.call@.len() - 1 ==> post.open_at(i) == pre.open_at(i),
        forall|x: int|
            #[trigger] post.is_open(x) == (pre.is_open(x) && x != pre.open_at(
                pre.call@.len() - 1,
            )),
    ensures
        post.followed(out),
{
    let n = out.len() as int;
    let m = pre.call@.len() as int;
    let node = pre.open_at(m - 1);
    assert forall|i: int, k: int|
        #![trigger post.open_at(i), out[post.open_at(i)]@[k]]
        0 <= i < post.call@.len() && 0 <= k < post.call@[i].cursor implies post.seen(
        out[post.open_at(i)]@[k].to as int,
    ) && (post.held(out[post.open_at(i)]@[k].to as int) ==> post.low@[post.open_at(i)]
        <= post.index@[out[post.open_at(i)]@[k].to as int]) by {
        reveal(Walk::followed);
        let g = pre.open_at(i);
        assert(out[g]@[k].to < n);
        assert(pre.seen(out[pre.open_at(i)]@[k].to as int));
    }
    assert forall|x: int, k: int|
        0 <= x < n && post.held(x) && !post.is_open(x) && 0 <= k < out[x]@.len() implies post.seen(
        (#[trigger] out[x]@[k]).to as int,
    ) by {
        reveal(Walk::followed);
        assert(pre.held(x) && x != node && !pre.is_open(x));
        assert(pre.seen(out[x]@[k].to as int));
    }
    assert forall|x: int, k: int, i: int|
        #![trigger out[x]@[k], post.owned_by(x, i)]
        0 <= x < n && post.held(x) && !post.is_open(x) && 0 <= k < out[x]@.len() && post.owned_by(
            x,
            i,
        ) && post.held(out[x]@[k].to as int) implies post.low@[post.open_at(i)]
        <= post.index@[out[x]@[k].to as int] by {
        reveal(Walk::followed);
        assert(pre.held(x) && x != node && !pre.is_open(x));
        assert(out[x]@[k].to < n);
        assert(pre.held(out[x]@[k].to as int));
        if i < m - 2 {
            assert(post.open_at(i + 1) == pre.open_at(i + 1));
        }
        assert(pre.owned_by(x, i));
    }
    reveal(Walk::followed);
}

proof fn lemma_member_push(components: Seq<Vec<usize>>, lost: Vec<usize>)
    ensures
        forall|c: int, x: int|
            c != components.len() ==> #[trigger] member_of(components.push(lost), c, x)
                == member_of(components, c, x),
        forall|x: int|
            #[trigger] member_of(components.push(lost), components.len() as int, x) <==> (0 <= x
                <= usize::MAX && lost@.contains(x as usize)),
{
    let all = components.push(lost);
    let last = components.len() as int;
    assert forall|c: int, x: int| c != last implies #[trigger] member_of(all, c, x) == member_of(
        components,
        c,
        x,
    ) by {
        if 0 <= c < last {
            assert(all[c] == components[c]);
        }
    }
    assert forall|x: int| #[trigger] member_of(all, last, x) <==> (0 <= x <= usize::MAX
        && lost@.contains(x as usize)) by {
        assert(all[last] == lost);
        if member_of(all, last, x) {
            let k = choose|k: int| 0 <= k < all[last]@.len() && #[trigger] all[last]@[k] == x;
            assert(lost@[k] == x as usize);
        }
        if 0 <= x <= usize::MAX && lost@.contains(x as usize) {
            let k = choose|k: int| 0 <= k < lost@.len() && lost@[k] == x as usize;
            assert(all[last]@[k] == x);
        }
    }
}

/// Where a connection out of the lost slots leads.
proof fn lemma_emit_leads(
    out: Seq<Vec<Edge>>,
    pre: Walk,
    post: Walk,
    lost: Vec<usize>,
    u: int,
    v: int,
)
    requires
        pre.inv(out),
        emits(out, pre, post, lost),
        opening(out, pre),
        lost_above(out, pre, post, lost),
        0 <= u < out.len(),
        lost@.contains(u as usize),
        connects(out, u, v),
    ensures
        0 <= v < out.len(),
        pre.seen(v),
        pre.held(v) ==> lost@.contains(v as usize),
{
    let m = pre.call@.len() as int;
    let node = pre.open_at(m - 1);
    let j = choose|j: int| 0 <= j < lost@.len() && lost@[j] == u as usize;
    assert(lost@[j] == u);
    assert(pre.held(u) && pre.index@[node] <= pre.index@[u]);
    let k = choose|k: int| 0 <= k < out[u]@.len() && (#[trigger] out[u]@[k]).to == v;
    assert(out[u]@[k].to < out.len());
    reveal(Walk::followed);
    if u == node {
        assert(pre.seen(out[pre.open_at(m - 1)]@[k].to as int));
        assert(pre.held(v) ==> pre.low@[pre.open_at(m - 1)] <= pre.index@[v]);
    } else {
        if pre.is_open(u) {
            let i = choose|i: int| 0 <= i < m && #[trigger] pre.open_at(i) == u;
            assert(pre.index@[pre.open_at(i)] < pre.index@[pre.open_at(m - 1)]);
        }
        assert(pre.seen(out[u]@[k].to as int));
        assert(pre.owned_by(u, m - 1));
    }
}

proof fn lemma_emit_closed(out: Seq<Vec<Edge>>, pre: Walk, post: Walk, lost: Vec<usize>)
    requires
        pre.inv(out),
        emits(out, pre, post, lost),
        opening(out, pre),
        lost_above(out, pre, post, lost),
    ensures
        post.closed_off(out),
{
    let n = out.len() as int;
    let m = pre.call@.len() as int;
    let node = pre.open_at(m - 1);
    let old_parts = pre.components@;
    let parts = post.components@;
    let last = old_parts.len() as int;
    lemma_member_push(old_parts, lost);
    assert forall|c: int, k: int|
        0 <= c < parts.len() && 0 <= k < parts[c]@.len() implies (#[trigger] parts[c]@[k]) < n
        && post.seen(parts[c]@[k] as int) && !post.held(parts[c]@[k] as int) by {
        if c < last {
            reveal(Walk::closed_off);
            assert(parts[c] == old_parts[c]);
            let x = old_parts[c]@[k] as int;
            assert(pre.seen(x) && !pre.held(x));
        } else {
            assert(parts[c] == lost);
            assert(pre.held(lost@[k] as int));
        }
    }
    assert forall|v: int| 0 <= v < n && post.seen(v) && !post.held(v) implies #[trigger] placed(
        parts,
        v,
    ) by {
        if pre.held(v) {
            assert(member_of(parts, last, v));
        } else {
            reveal(Walk::closed_off);
            assert(pre.seen(v));
            assert(placed(old_parts, v));
            let c = choose|c: int| 0 <= c < old_parts.len() && #[trigger] member_of(
                old_parts,
                c,
                v,
            );
            assert(member_of(parts, c, v));
        }
    }
    assert(placed_once(parts)) by {
        reveal(Walk::closed_off);
        assert forall|c: int, k: int, d: int, l: int|
            0 <= c < parts.len() && 0 <= k < parts[c]@.len() && 0 <= d < parts.len() && 0 <= l
                < parts[d]@.len() && #[trigger] parts[c]@[k] == #[trigger] parts[d]@[l] implies c
            == d && k == l by {
            if c == last {
                assert(pre.held(lost@[k] as int));
            }
            if d == last {
                assert(pre.held(lost@[l] as int));
            }
            if c < last {
                assert(parts[c] == old_parts[c]);
                assert(!pre.held(old_parts[c]@[k] as int));
            }
            if d < last {
                assert(parts[d] == old_parts[d]);
                assert(!pre.held(old_parts[d]@[l] as int));
            }
        }
    }
    assert forall|c: int| 0 <= c < parts.len() implies (#[trigger] parts[c])@.len() > 0 by {
        reveal(Walk::closed_off);
        if c < last {
            assert(parts[c] == old_parts[c]);
        }
    }
    assert(strongly_connected(out, parts)) by {
        assert forall|c: int, u: int, v: int|
            #[trigger] member_of(parts, c, u) && #[trigger] member_of(parts, c, v) implies reaches(
            out,
            u,
            v,
        ) by {
            if c != last {
                assert(member_of(old_parts, c, u) && member_of(old_parts, c, v));
                reveal(Walk::closed_off);
            } else {
                let j = choose|j: int| 0 <= j < lost@.len() && lost@[j] == u as usize;
                let l = choose|l: int| 0 <= l < lost@.len() && lost@[l] == v as usize;
                assert(lost@[j] == u && lost@[l] == v);
                assert(pre.held(u) && pre.held(v));
                let i = lemma_back_of(out, pre, u);
                if i < m - 1 {
                    assert(pre.index@[pre.open_at(i)] < pre.index@[node]);
                }
                reveal(Walk::leads_on);
                assert(pre.held(node));
                assert(reaches(out, pre.open_at(i), node));
                lemma_reaches_transitive(out, u, pre.open_at(i), node);
                assert(reaches(out, pre.open_at(m - 1), v));
                lemma_reaches_transitive(out, u, node, v);
            }
        }
    }
    assert forall|c: int, u: int, v: int|
        #[trigger] member_of(parts, c, u) && #[trigger] connects(out, u, v) implies exists|d: int|
        d <= c && #[trigger] member_of(parts, d, v) by {
        if c != last {
            assert(member_of(old_parts, c, u));
            reveal(Walk::closed_off);
            let d = choose|d: int| d <= c && #[trigger] member_of(old_parts, d, v);
            assert(member_of(parts, d, v));
        } else {
            lemma_emit_leads(out, pre, post, lost, u, v);
            if pre.held(v) {
                assert(member_of(parts, last, v));
            } else {
                reveal(Walk::closed_off);
                assert(placed(old_parts, v));
                let d = choose|d: int| 0 <= d < old_parts.len() && #[trigger] member_of(
                    old_parts,
                    d,
                    v,
                );
                assert(member_of(parts, d, v));
            }
        }
    }
    reveal(Walk::closed_off);
}

proof fn lemma_emit(out: Seq<Vec<Edge>>, pre: Walk, post: Walk, lost: Vec<usize>)
    requires
        pre.inv(out),
        emits(out, pre, post, lost),
    ensures
        post.inv(out),
        pending(out, post.call@) < pending(out, pre.call@),
{
    lemma_opening(out, pre);
    lemma_lost(out, pre, post, lost);
    lemma_emit_shapes(out, pre, post, lost);
    lemma_emit_links(out, pre, post, lost);
    lemma_emit_followed(out, pre, post, lost);
    lemma_emit_closed(out, pre, post, lost);
}

impl Walk {
    fn new(n: usize) -> (walk: Walk)
        ensures
            walk.index@.len() == n,
            walk.low@.len() == n,
            walk.on_stack@.len() == n,
            forall|v: int| 0 <= v < n ==> walk.index@[v] == usize::MAX && !walk.on_stack@[v],
            walk.stack@.len() == 0,
            walk.call@.len() == 0,
            walk.next == 0,
            walk.components@.len() == 0,
    {
        Walk {
            index: vec![usize::MAX; n],
            low: vec![0; n],
            on_stack: vec![false; n],
            stack: Vec::new(),
            call: Vec::new(),
            next: 0,
            components: Vec::new(),
        }
    }

    /// Marks `v` as met and opens it.
    fn enter(&mut self, v: usize)
        requires
            v < old(self).index@.len(),
            old(self).low@.len() == old(self).index@.len(),
            old(self).on_stack@.len() == old(self).index@.len(),
            old(self).next < usize::MAX,
        ensures
            final(self).index@ == old(self).index@.update(v as int, old(self).next),
            final(self).low@ == old(self).low@.update(v as int, old(self).next),
            final(self).on_stack@ == old(self).on_stack@.update(v as int, true),
            final(self).stack@ == old(self).stack@.push(v),
            final(self).next == old(self).next + 1,
            final(self).components == old(self).components,
            final(self).call@ == old(self).call@.push(Frame { node: v, cursor: 0 }),
    {
        self.index[v] = self.next;
        self.low[v] = self.next;
        self.next += 1;
        self.stack.push(v);
        self.on_stack[v] = true;
        self.call.push(Frame { node: v, cursor: 0 });
    }

    /// Takes slots off the stack up to and with `node`.
    fn unload(&mut self, node: usize, Ghost(p): Ghost<int>) -> (lost: Vec<usize>)
        requires
            0 <= p < old(self).stack@.len(),
            old(self).stack@[p] == node,
            forall|q: int|
                p < q < old(self).stack@.len() ==> #[trigger] old(self).stack@[q] != node,
            forall|q: int|
                0 <= q < old(self).stack@.len() ==> (#[trigger] old(self).stack@[q])
                    < old(self).on_stack@.len(),
        ensures
            final(self).index == old(self).index,
            final(self).low == old(self).low,
            final(self).call == old(self).call,
            final(self).next == old(self).next,
            final(self).components == old(self).components,
            final(self).stack@ == old(self).stack@.take(p),
            lost@.len() == old(self).stack@.len() - p,
            forall|k: int|
                0 <= k < lost@.len() ==> #[trigger] lost@[k] == old(self).stack@[old(
                    self,
                ).stack@.len() - 1 - k],
            final(self).on_stack@.len() == old(self).on_stack@.len(),
            forall|x: int|
                0 <= x < old(self).on_stack@.len() ==> #[trigger] final(self).on_stack@[x] == (old(
                    self,
                ).on_stack@[x] && !lost@.contains(x as usize)),
    {
        let mut lost: Vec<usize> = Vec::new();
        let n: usize = self.on_stack.len();
        let ghost pre = *self;
        loop
            invariant_except_break
                p < self.stack@.len(),
            invariant
                n == pre.on_stack@.len(),
                0 <= p < pre.stack@.len(),
                pre.stack@[p] == node,
                forall|q: int| p < q < pre.stack@.len() ==> #[trigger] pre.stack@[q] != node,
                forall|q: int|
                    0 <= q < pre.stack@.len() ==> (#[trigger] pre.stack@[q])
                        < pre.on_stack@.len(),
                self.index == pre.index,
                self.low == pre.low,
                self.call == pre.call,
                self.next == pre.next,
                self.components == pre.components,
                self.stack@.len() + lost@.len() == pre.stack@.len(),
                self.stack@ == pre.stack@.take(self.stack@.len() as int),
                forall|k: int|
                    0 <= k < lost@.len() ==> #[trigger] lost@[k]
                        == pre.stack@[pre.stack@.len() - 1 - k],
                self.on_stack@.len() == pre.on_stack@.len(),
                forall|x: int|
                    0 <= x < pre.on_stack@.len() ==> #[trigger] self.on_stack@[x]
                        == (pre.on_stack@[x] && !lost@.contains(x as usize)),
            ensures
                self.stack@.len() == p,
            decreases self.stack@.len(),
        {
            let ghost before = *self;
            let ghost had = lost@;
            match self.stack.pop() {
                Some(member) => {
                    assert(member == pre.stack@[self.stack@.len() as int]);
                    self.on_stack[member] = false;
                    lost.push(member);
                    proof {
                        assert(self.stack@ =~= pre.stack@.take(self.stack@.len() as int));
                        assert forall|x: int|
                            0 <= x < pre.on_stack@.len() implies #[trigger] self.on_stack@[x] == (
                        pre.on_stack@[x] && !lost@.contains(x as usize)) by {
                            assert(before.on_stack@[x] == (pre.on_stack@[x] && !had.contains(
                                x as usize,
                            )));
                            if x == member {
                                assert(lost@[had.len() as int] == x);
                            } else if had.contains(x as usize) {
                                let k = choose|k: int| 0 <= k < had.len() && had[k] == x as usize;
                                assert(lost@[k] == x as usize);
                            } else if lost@.contains(x as usize) {
                                let k = choose|k: int|
                                    0 <= k < lost@.len() && lost@[k] == x as usize;
                                assert(had[k] == x as usize);
                            }
                        }
                    }
                    if member == node {
                        break;
                    }
                },
                None => {
                    break;
                },
            }
        }
        lost
    }

    /// Follows one connection of the top slot, or closes it.
    fn step(&mut self, out: &Vec<Vec<Edge>>)
        requires
            old(self).inv(out@),
            old(self).call@.len() > 0,
        ensures
            final(self).inv(out@),
            unvisited(final(self).index@, out@.len() as int) < unvisited(
                old(self).index@,
                out@.len() as int,
            ) || (unvisited(final(self).index@, out@.len() as int) == unvisited(
                old(self).index@,
                out@.len() as int,
            ) && pending(out@, final(self).call@) < pending(out@, old(self).call@)),
            forall|v: int|
                0 <= v < out@.len() && old(self).index@[v] != usize::MAX
                    ==> #[trigger] final(self).index@[v] != usize::MAX,
    {
        let ghost pre = *self;
        proof {
            lemma_opening(out@, pre);
        }
        let n: usize = out.len();
        let top: usize = self.call.len() - 1;
        let frame = self.call[top];
        let node: usize = frame.node;
        assert(pre.open_at(top as int) == node);
        if frame.cursor < out[node].len() {
            let child: usize = out[node][frame.cursor].to;
            assert(out@[node as int]@[frame.cursor as int].to < out@.len());
            self.call[top] = Frame { node, cursor: frame.cursor + 1 };
            if self.index[child] == usize::MAX {
                proof {
                    reveal(Walk::shape);
                    lemma_unvisited_update(pre.index@, out@.len() as int, child as int, 0);
                }
                self.enter(child);
                proof {
                    assert(enters(out@, pre, *self, child as int));
                    lemma_enter(out@, pre, *self, child as int);
                }
            } else {
                if self.on_stack[child] {
                    let reached: usize = self.index[child];
                    if reached < self.low[node] {
                        self.low[node] = reached;
                    }
                }
                proof {
                    lemma_follow(out@, pre, *self);
                }
            }
        } else {
            let low: usize = self.low[node];
            let index: usize = self.index[node];
            self.call.pop();
            assert(self.call@ == pre.call@.drop_last());
            proof {
                let w = lemma_low_of(out@, pre, top as int);
                if top > 0 {
                    let g = lemma_low_of(out@, pre, top - 1);
                }
            }
            if top > 0 {
                let parent: usize = self.call[top - 1].node;
                assert(pre.open_at(top - 1) == parent);
                if low < self.low[parent] {
                    self.low[parent] = low;
                }
            }
            if low == index {
                assert(self.low@ =~= pre.low@);
                let ghost held = *self;
                let ghost p: int = 0;
                proof {
                    reveal(Walk::stack_shape);
                    assert(pre.held(node as int));
                    assert(pre.stacked(node as int));
                    reveal(Walk::stacked);
                    p = choose|q: int| 0 <= q < pre.stack@.len() && #[trigger] pre.stack@[q]
                        == node as int;
                    assert forall|q: int| p < q < pre.stack@.len() implies #[trigger] pre.stack@[q]
                        != node by {
                        assert(pre.index@[pre.stack@[p] as int] < pre.index@[pre.stack@[q] as int]);
                    }
                }
                let lost = self.unload(node, Ghost(p));
                self.components.push(lost);
                proof {
                    assert forall|x: int| 0 <= x < out@.len() implies #[trigger] self.held(x) == (
                    pre.held(x) && !lost@.contains(x as usize)) by {
                        assert(self.on_stack@[x] == (held.on_stack@[x] && !lost@.contains(
                            x as usize,
                        )));
                    }
                    assert(emits(out@, pre, *self, lost));
                    lemma_emit(out@, pre, *self, lost);
                }
            } else {
                proof {
                    assert(retires(out@, pre, *self));
                    lemma_retire(out@, pre, *self);
                }
            }
        }
    }
}

proof fn lemma_start(out: Seq<Vec<Edge>>, walk: Walk)
    requires
        well_wired(out),
        walk.index@.len() == out.len(),
        walk.low@.len() == out.len(),
        walk.on_stack@.len() == out.len(),
        forall|v: int|
            0 <= v < out.len() ==> walk.index@[v] == usize::MAX && !walk.on_stack@[v],
        walk.stack@.len() == 0,
        walk.call@.len() == 0,
        walk.next == 0,
        walk.components@.len() == 0,
    ensures
        walk.inv(out),
{
    reveal(Walk::shape);
    reveal(Walk::stack_shape);
    reveal(Walk::call_shape);
    reveal(Walk::low_links);
    reveal(Walk::leads_back);
    reveal(Walk::leads_on);
    reveal(Walk::followed);
    reveal(Walk::closed_off);
    lemma_all_unvisited(walk.index@, out.len() as int);
    assert forall|v: int| 0 <= v < out.len() implies !#[trigger] walk.held(v) by {
        assert(!walk.on_stack@[v]);
    }
    assert forall|v: int| 0 <= v < out.len() implies !walk.seen(v) by {
        assert(walk.index@[v] == usize::MAX);
    }
}

proof fn lemma_nothing_held(out: Seq<Vec<Edge>>, walk: Walk)
    requires
        walk.inv(out),
        walk.call@.len() == 0,
    ensures
        walk.stack@.len() == 0,
        forall|v: int| 0 <= v < out.len() ==> !#[trigger] walk.held(v),
{
    assert forall|v: int| 0 <= v < out.len() implies !#[trigger] walk.held(v) by {
        if walk.held(v) {
            let i = lemma_back_of(out, walk, v);
        }
    }
    reveal(Walk::stack_shape);
    if walk.stack@.len() > 0 {
        assert(walk.held(walk.stack@[0] as int));
    }
}

proof fn lemma_finished(out: Seq<Vec<Edge>>, walk: Walk)
    requires
        walk.inv(out),
        walk.call@.len() == 0,
        forall|v: int| 0 <= v < out.len() ==> #[trigger] walk.index@[v] != usize::MAX,
    ensures
        is_decomposition(out, walk.components@),
{
    lemma_nothing_held(out, walk);
    reveal(Walk::closed_off);
    let parts = walk.components@;
    assert forall|v: int| 0 <= v < out.len() implies #[trigger] placed(parts, v) by {
        assert(walk.seen(v) && !walk.held(v));
    }
    assert forall|c: int, d: int, u: int, v: int|
        #[trigger] member_of(parts, c, u) && #[trigger] member_of(parts, d, v) && connects(
            out,
            u,
            v,
        ) implies d <= c by {
        let e = choose|e: int| e <= c && #[trigger] member_of(parts, e, v);
        let k = choose|k: int| 0 <= k < parts[d]@.len() && #[trigger] parts[d]@[k] == v;
        let l = choose|l: int| 0 <= l < parts[e]@.len() && #[trigger] parts[e]@[l] == v;
        assert(parts[d]@[k] == parts[e]@[l]);
    }
}

/// The strongly connected components of a graph, each before whatever leads
/// to it: a single walk over all slots, with its own stack of open slots.
pub fn strongly_connected_components(out: &Vec<Vec<Edge>>) -> (components: Vec<Vec<usize>>)
    requires
        well_wired(out@),
    ensures
        is_decomposition(out@, components@),
{
    let n: usize = out.len();
    let mut walk = Walk::new(n);
    proof {
        lemma_start(out@, walk);
    }
    let mut root: usize = 0;
    while root < n
        invariant
            root <= n,
            n == out@.len(),
            walk.inv(out@),
            walk.call@.len() == 0,
            forall|v: int| 0 <= v < root ==> #[trigger] walk.index@[v] != usize::MAX,
        decreases n - root,
    {
        proof {
            lemma_opening(out@, walk);
            lemma_nothing_held(out@, walk);
        }
        if walk.index[root] == usize::MAX {
            let ghost pre = walk;
            proof {
                reveal(Walk::shape);
                lemma_unvisited_update(pre.index@, n as int, root as int, 0);
            }
            walk.enter(root);
            proof {
                assert(walk.call@ =~= seq![Frame { node: root, cursor: 0 }]);
                lemma_enter(out@, pre, walk, root as int);
            }
            while walk.call.len() > 0
                invariant
                    root < n,
                    n == out@.len(),
                    walk.inv(out@),
                    walk.index@.len() == n,
                    forall|v: int| 0 <= v <= root ==> #[trigger] walk.index@[v] != usize::MAX,
                decreases unvisited(walk.index@, n as int), pending(out@, walk.call@),
            {
                walk.step(out);
                proof {
                    lemma_opening(out@, walk);
                }
            }
        }
        root += 1;
    }
    proof {
        lemma_finished(out@, walk);
    }
    walk.components
}

} // verus!
