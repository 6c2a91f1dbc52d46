//! An unbalanced binary search tree of distinct values, with navigation
//! queries and sorted traversal.
use vstd::prelude::*;

use std::cmp::Ordering;
use vstd::std_specs::cmp::OrdSpec;

use crate::queue::Queue;

verus! {

/// `x` comes strictly before `y` in `T`'s order.
pub open spec fn lt<T: Ord>(x: T, y: T) -> bool {
    x.cmp_spec(&y) == Ordering::Less
}

/// `T`'s `cmp` is a strict total order whose `Equal` means equal values.
pub open spec fn total_order<T: Ord>() -> bool {
    &&& T::obeys_cmp_spec()
    &&& forall|x: T, y: T| #[trigger] x.cmp_spec(&y) == Ordering::Equal <==> x == y
    &&& forall|x: T, y: T|
        #![trigger x.cmp_spec(&y)]
        #![trigger y.cmp_spec(&x)]
        x.cmp_spec(&y) == Ordering::Less <==> y.cmp_spec(&x) == Ordering::Greater
    &&& forall|x: T, y: T, z: T| #[trigger] lt(x, y) && #[trigger] lt(y, z) ==> lt(x, z)
}

/// The machine integer types meet `total_order`, so trees of them can be
/// built.
pub proof fn lemma_integers_total_order()
    ensures
        total_order::<i32>(),
        total_order::<i64>(),
        total_order::<u32>(),
        total_order::<u64>(),
        total_order::<usize>(),
{
}

/// Each value of `q` comes strictly before the next.
pub open spec fn strictly_ascending<T: Ord>(q: Seq<T>) -> bool {
    forall|i: int, j: int| 0 <= i < j < q.len() ==> lt(#[trigger] q[i], #[trigger] q[j])
}

/// `q` lists the values of `s` once each, in ascending order.
pub open spec fn lists_in_order<T: Ord>(q: Seq<T>, s: Set<T>) -> bool {
    strictly_ascending(q) && q.no_duplicates() && q.to_set() == s
}

/// `m` is in `s` and comes before every other value of `s`.
pub open spec fn is_least<T: Ord>(s: Set<T>, m: T) -> bool {
    s.contains(m) && forall|x: T| s.contains(x) && x != m ==> lt(m, x)
}

/// `m` is in `s` and comes after every other value of `s`.
pub open spec fn is_greatest<T: Ord>(s: Set<T>, m: T) -> bool {
    s.contains(m) && forall|x: T| s.contains(x) && x != m ==> lt(x, m)
}

/// `f` is the greatest value of `s` strictly below `item`.
pub open spec fn is_floor<T: Ord>(s: Set<T>, item: T, f: T) -> bool {
    &&& s.contains(f)
    &&& lt(f, item)
    &&& forall|x: T| s.contains(x) && lt(x, item) && x != f ==> lt(x, f)
}

/// `c` is the least value of `s` strictly above `item`.
pub open spec fn is_ceil<T: Ord>(s: Set<T>, item: T, c: T) -> bool {
    &&& s.contains(c)
    &&& lt(item, c)
    &&& forall|x: T| s.contains(x) && lt(item, x) && x != c ==> lt(c, x)
}

/// Under a total order, `lt` is irreflexive, asymmetric and total.
proof fn lemma_lt_facts<T: Ord>()
    requires
        total_order::<T>(),
    ensures
        forall|x: T, y: T| #[trigger] lt(x, y) ==> x != y && !lt(y, x),
        forall|x: T, y: T| x != y ==> #[trigger] lt(x, y) || #[trigger] lt(y, x),
{
    assert forall|x: T, y: T| #[trigger] lt(x, y) implies x != y && !lt(y, x) by {
        assert(x.cmp_spec(&y) == Ordering::Less);
        assert(y.cmp_spec(&x) == Ordering::Greater);
    }
    assert forall|x: T, y: T| x != y implies #[trigger] lt(x, y) || #[trigger] lt(y, x) by {
        assert(x.cmp_spec(&y) != Ordering::Equal);
        if x.cmp_spec(&y) == Ordering::Greater {
            assert(y.cmp_spec(&x) == Ordering::Less);
        }
    }
}

/// The values that a sequence of references points to.
pub open spec fn derefs<T>(q: Seq<&T>) -> Seq<T> {
    q.map_values(|r: &T| *r)
}

/// Hands out, in ascending order, the values that a traversal of a tree put
/// in its queue.
pub struct BinarySearchTreeIterator<T> {
    inner: Queue<T>,
}

impl<T> View for BinarySearchTreeIterator<T> {
    type V = Seq<T>;

    closed spec fn view(&self) -> Seq<T> {
        self.inner@
    }
}

impl<T> BinarySearchTreeIterator<T> {
    /// The next value, in ascending order.
    pub fn next(&mut self) -> (r: Option<T>)
        ensures
            old(self)@.len() == 0 ==> r is None && final(self)@ == old(self)@,
            old(self)@.len() > 0 ==> r == Some(old(self)@[0]) && final(self)@ == old(self)@.drop_first(),
    {
        self.inner.dequeue()
    }
}

/// A node that is empty, or holds one value with an optional subtree of
/// smaller values on its left and one of greater values on its right. Its
/// view is the set of values it holds.
pub struct BinarySearchTree<T: Ord> {
    value: Option<T>,
    left: Option<Box<BinarySearchTree<T>>>,
    right: Option<Box<BinarySearchTree<T>>>,
}

impl<T: Ord> BinarySearchTree<T> {
    spec fn subtree_elems(t: Option<Box<BinarySearchTree<T>>>) -> Set<T>
        decreases t,
    {
        match t {
            None => Set::empty(),
            Some(b) => b.elems(),
        }
    }

    spec fn elems(self) -> Set<T>
        decreases self,
    {
        match self.value {
            None => Set::empty(),
            Some(v) => Self::subtree_elems(self.left).union(Self::subtree_elems(self.right)).insert(v),
        }
    }

    spec fn subtree_ordered(t: Option<Box<BinarySearchTree<T>>>) -> bool
        decreases t,
    {
        match t {
            None => true,
            Some(b) => b.ordered(),
        }
    }

    spec fn ordered(self) -> bool
        decreases self,
    {
        match self.value {
            None => self.left is None && self.right is None,
            Some(v) => {
                &&& forall|x: T| Self::subtree_elems(self.left).contains(x) ==> lt(x, v)
                &&& forall|x: T| Self::subtree_elems(self.right).contains(x) ==> lt(v, x)
                &&& Self::subtree_ordered(self.left)
                &&& Self::subtree_ordered(self.right)
            },
        }
    }

    spec fn subtree_in_order(t: Option<Box<BinarySearchTree<T>>>) -> Seq<T>
        decreases t,
    {
        match t {
            None => Seq::empty(),
            Some(b) => b.in_order(),
        }
    }

    /// The values in the order of a traversal: left subtree, value, right
    /// subtree.
    pub closed spec fn in_order(self) -> Seq<T>
        decreases self,
    {
        match self.value {
            None => Seq::empty(),
            Some(v) => Self::subtree_in_order(self.left) + seq![v] + Self::subtree_in_order(self.right),
        }
    }

    /// What well-formedness says of a node and its two subtrees.
    proof fn lemma_node(self)
        requires
            self.wf(),
        ensures
            self.value is None ==> self@ == Set::<T>::empty() && self.in_order() == Seq::<T>::empty(),
            self.value is Some ==> {
                let v = self.value.unwrap();
                &&& self@ == Self::subtree_elems(self.left).union(Self::subtree_elems(self.right)).insert(v)
                &&& self.in_order() == Self::subtree_in_order(self.left) + seq![v] + Self::subtree_in_order(self.right)
                &&& forall|x: T| #[trigger] Self::subtree_elems(self.left).contains(x) ==> lt(x, v)
                &&& forall|x: T| #[trigger] Self::subtree_elems(self.right).contains(x) ==> lt(v, x)
            },
            match self.left {
                None => Self::subtree_elems(self.left) == Set::<T>::empty()
                    && Self::subtree_in_order(self.left) == Seq::<T>::empty(),
                Some(l) => l.wf() && l@ == Self::subtree_elems(self.left)
                    && l.in_order() == Self::subtree_in_order(self.left),
            },
            match self.right {
                None => Self::subtree_elems(self.right) == Set::<T>::empty()
                    && Self::subtree_in_order(self.right) == Seq::<T>::empty(),
                Some(r) => r.wf() && r@ == Self::subtree_elems(self.right)
                    && r.in_order() == Self::subtree_in_order(self.right),
            },
    {
        lemma_lt_facts::<T>();
    }

    /// A traversal of a well-formed tree lists its values once each, in
    /// ascending order.
    proof fn lemma_in_order(self)
        requires
            self.wf(),
        ensures
            lists_in_order(self.in_order(), self@),
        decreases self,
    {
        self.lemma_node();
        lemma_lt_facts::<T>();
        match self.value {
            None => {
                assert(self.in_order().to_set() =~= self@);
            },
            Some(v) => {
                let a = Self::subtree_in_order(self.left);
                let b = Self::subtree_in_order(self.right);
                let ls = Self::subtree_elems(self.left);
                let rs = Self::subtree_elems(self.right);
                match self.left {
                    Some(l) => l.lemma_in_order(),
                    None => {},
                }
                match self.right {
                    Some(r) => r.lemma_in_order(),
                    None => {},
                }
                assert(a.to_set() == ls);
                assert(b.to_set() == rs);
                let q = a + seq![v] + b;
                assert(q == self.in_order());
                assert forall|i: int| 0 <= i < a.len() implies lt(#[trigger] a[i], v) by {
                    assert(a.contains(a[i]));
                    assert(ls.contains(a[i]));
                }
                assert forall|i: int| 0 <= i < b.len() implies lt(v, #[trigger] b[i]) by {
                    assert(b.contains(b[i]));
                    assert(rs.contains(b[i]));
                }
                assert forall|i: int, j: int| 0 <= i < j < q.len() implies lt(
                    #[trigger] q[i],
                    #[trigger] q[j],
                ) by {
                    if j < a.len() {
                        assert(q[i] == a[i] && q[j] == a[j]);
                    } else if j == a.len() {
                        assert(q[i] == a[i]);
                    } else if i > a.len() {
                        assert(q[i] == b[i - a.len() - 1] && q[j] == b[j - a.len() - 1]);
                    } else if i == a.len() {
                        assert(q[j] == b[j - a.len() - 1]);
                    } else {
                        assert(q[i] == a[i] && q[j] == b[j - a.len() - 1]);
                        assert(lt(q[i], v));
                    }
                }
                assert forall|x: T| q.contains(x) <==> self@.contains(x) by {
                    if q.contains(x) {
                        let k = choose|k: int| 0 <= k < q.len() && q[k] == x;
                        if k < a.len() {
                            assert(a.contains(a[k]));
                        } else if k > a.len() {
                            assert(b.contains(b[k - a.len() - 1]));
                        }
                    }
                    if ls.contains(x) {
                        assert(a.to_set().contains(x));
                        let k = choose|k: int| 0 <= k < a.len() && a[k] == x;
                        assert(q[k] == x);
                    }
                    if rs.contains(x) {
                        assert(b.to_set().contains(x));
                        let k = choose|k: int| 0 <= k < b.len() && b[k] == x;
                        assert(q[k + a.len() + 1] == x);
                    }
                    if x == v {
                        assert(q[a.len() as int] == x);
                    }
                }
                assert(q.to_set() =~= self@);
                assert forall|i: int, j: int| 0 <= i < q.len() && 0 <= j < q.len() && i != j implies q[i]
                    != q[j] by {
                    if i < j {
                        assert(lt(q[i], q[j]));
                    } else {
                        assert(lt(q[j], q[i]));
                    }
                }
            },
        }
    }

    spec fn height(self) -> nat
        decreases self,
    {
        let l = match self.left {
            None => 0,
            Some(b) => b.height(),
        };
        let r = match self.right {
            None => 0,
            Some(b) => b.height(),
        };
        1 + if l > r { l } else { r }
    }

    /// The tree is ordered, and `T`'s order is one it can rely on.
    pub closed spec fn wf(self) -> bool {
        total_order::<T>() && self.ordered()
    }
}

impl<T: Ord> BinarySearchTree<T> {
    /// A well-formed tree's element type is totally ordered, so facts such as
    /// `lt` being irreflexive hold of whatever it returns.
    pub proof fn lemma_wf_total_order(&self)
        requires
            self.wf(),
        ensures
            total_order::<T>(),
    {
    }
}

impl<T: Ord> View for BinarySearchTree<T> {
    type V = Set<T>;

    closed spec fn view(&self) -> Set<T> {
        self.elems()
    }
}

impl<T: Ord> BinarySearchTree<T> {
    /// An empty tree. `T`'s order must be total for the tree to be of use.
    pub fn new() -> (t: BinarySearchTree<T>)
        requires
            total_order::<T>(),
        ensures
            t.wf(),
            t@ == Set::<T>::empty(),
    {
        BinarySearchTree { value: None, left: None, right: None }
    }

    /// Adds `item`; a value already held is left as it is. The descent is a
    /// loop, so a degenerate tree costs no call per level.
    pub fn insert(&mut self, item: T)
        requires
            old(self).wf(),
        ensures
            final(self).wf(),
            final(self)@ == old(self)@.insert(item),
            old(self)@.contains(item) ==> *final(self) == *old(self),
    {
        let ghost x = item;
        let mut root = BinarySearchTree { value: None, left: None, right: None };
        std::mem::swap(self, &mut root);
        let mut cur: &mut BinarySearchTree<T> = &mut root;
        let ghost mut g: BinarySearchTree<T> = *cur;
        loop
            invariant_except_break
                g == *cur,
            invariant
                total_order::<T>(),
                g.ordered(),
                x == item,
                (final(cur).ordered() && final(cur).elems() == g.elems().insert(x)) ==> (
                after_borrow(root).ordered() && after_borrow(root).elems() == old(self).elems().insert(x)),
                *final(cur) == g ==> after_borrow(root) == *old(self),
                old(self).elems().contains(x) ==> g.elems().contains(x),
            ensures
                cur.ordered(),
                cur.elems() == g.elems().insert(x),
                old(self).elems().contains(x) ==> *cur == g,
            decreases g.height(),
        {
            let order = match &cur.value {
                None => None,
                Some(key) => Some(item.cmp(key)),
            };
            proof {
                lemma_lt_facts::<T>();
            }
            match order {
                None => {
                    cur.value = Some(item);
                    proof {
                        assert(cur.elems() =~= g.elems().insert(x));
                    }
                    break;
                },
                Some(Ordering::Equal) => {
                    proof {
                        assert(cur.elems() =~= g.elems().insert(x));
                    }
                    break;
                },
                Some(Ordering::Less) => {
                    proof {
                        g.lemma_node();
                        assert(lt(x, g.value.unwrap()));
                        if g.elems().contains(x) {
                            assert(Self::subtree_elems(g.left).contains(x));
                        }
                    }
                    if cur.left.is_none() {
                        let leaf = BinarySearchTree { value: Some(item), left: None, right: None };
                        proof {
                            assert(leaf.elems() =~= Set::empty().insert(x));
                            assert(leaf.ordered());
                        }
                        cur.left = Some(Box::new(leaf));
                        proof {
                            assert(Self::subtree_elems(cur.left) =~= Self::subtree_elems(g.left).insert(x));
                            assert(Self::subtree_ordered(cur.left));
                            assert(cur.ordered());
                            assert(cur.elems() =~= g.elems().insert(x));
                        }
                        break;
                    }
                    let ghost parent = g;
                    match &mut cur.left {
                        Some(b) => {
                            cur = &mut **b;
                        },
                        None => {
                            break;
                        },
                    }
                    proof {
                        g = *cur;
                        assert(parent.left == Some(Box::new(g)));
                        assert(g.height() < parent.height());
                        assert(Self::subtree_ordered(parent.left));
                        Self::lemma_descend_left(parent, x);
                    }
                },
                Some(Ordering::Greater) => {
                    proof {
                        g.lemma_node();
                        assert(lt(g.value.unwrap(), x));
                        if g.elems().contains(x) {
                            assert(Self::subtree_elems(g.right).contains(x));
                        }
                    }
                    if cur.right.is_none() {
                        let leaf = BinarySearchTree { value: Some(item), left: None, right: None };
                        proof {
                            assert(leaf.elems() =~= Set::empty().insert(x));
                            assert(leaf.ordered());
                        }
                        cur.right = Some(Box::new(leaf));
                        proof {
                            assert(Self::subtree_elems(cur.right) =~= Self::subtree_elems(g.right).insert(x));
                            assert(Self::subtree_ordered(cur.right));
                            assert(cur.ordered());
                            assert(cur.elems() =~= g.elems().insert(x));
                        }
                        break;
                    }
                    let ghost parent = g;
                    match &mut cur.right {
                        Some(b) => {
                            cur = &mut **b;
                        },
                        None => {
                            break;
                        },
                    }
                    proof {
                        g = *cur;
                        assert(parent.right == Some(Box::new(g)));
                        assert(g.height() < parent.height());
                        assert(Self::subtree_ordered(parent.right));
                        Self::lemma_descend_right(parent, x);
                    }
                },
            }
        }
        std::mem::swap(self, &mut root);
    }

    /// Replacing the left subtree of an ordered node, whose value is above
    /// `x`, by any ordered tree that holds the old subtree's values and `x`
    /// keeps the node ordered, and adds `x` to its values.
    proof fn lemma_descend_left(parent: Self, x: T)
        requires
            total_order::<T>(),
            parent.ordered(),
            parent.value is Some,
            lt(x, parent.value.unwrap()),
            parent.left is Some,
        ensures
            forall|child: Self|
                #[trigger] child.ordered() && child.elems() == parent.left.unwrap().elems().insert(x)
                    ==> ({
                    let p2 = BinarySearchTree { value: parent.value, left: Some(Box::new(child)), right: parent.right };
                    p2.ordered() && p2.elems() == parent.elems().insert(x)
                }),
    {
        assert forall|child: Self|
            #[trigger] child.ordered() && child.elems() == parent.left.unwrap().elems().insert(x) implies ({
            let p2 = BinarySearchTree { value: parent.value, left: Some(Box::new(child)), right: parent.right };
            p2.ordered() && p2.elems() == parent.elems().insert(x)
        }) by {
            let p2 = BinarySearchTree { value: parent.value, left: Some(Box::new(child)), right: parent.right };
            assert(Self::subtree_elems(p2.left) == child.elems());
            assert(p2.ordered());
            assert(p2.elems() =~= parent.elems().insert(x));
        }
    }

    /// The mirror image of `lemma_descend_left`.
    proof fn lemma_descend_right(parent: Self, x: T)
        requires
            total_order::<T>(),
            parent.ordered(),
            parent.value is Some,
            lt(parent.value.unwrap(), x),
            parent.right is Some,
        ensures
            forall|child: Self|
                #[trigger] child.ordered() && child.elems() == parent.right.unwrap().elems().insert(x)
                    ==> ({
                    let p2 = BinarySearchTree { value: parent.value, left: parent.left, right: Some(Box::new(child)) };
                    p2.ordered() && p2.elems() == parent.elems().insert(x)
                }),
    {
        assert forall|child: Self|
            #[trigger] child.ordered() && child.elems() == parent.right.unwrap().elems().insert(x) implies ({
            let p2 = BinarySearchTree { value: parent.value, left: parent.left, right: Some(Box::new(child)) };
            p2.ordered() && p2.elems() == parent.elems().insert(x)
        }) by {
            let p2 = BinarySearchTree { value: parent.value, left: parent.left, right: Some(Box::new(child)) };
            assert(Self::subtree_elems(p2.right) == child.elems());
            assert(p2.ordered());
            assert(p2.elems() =~= parent.elems().insert(x));
        }
    }
}

impl<T: Ord> BinarySearchTree<T> {
    /// Whether `item` is held, found by descending from the root.
    pub fn contains(&self, item: &T) -> (r: bool)
        requires
            self.wf(),
        ensures
            r == self@.contains(*item),
        decreases self,
    {
        proof {
            self.lemma_node();
            lemma_lt_facts::<T>();
        }
        match &self.value {
            None => false,
            Some(v) => match item.cmp(v) {
                Ordering::Equal => true,
                Ordering::Less => {
                    proof {
                        assert(lt(*item, *v));
                        assert(!Self::subtree_elems(self.right).contains(*item));
                    }
                    match &self.left {
                        Some(l) => l.contains(item),
                        None => false,
                    }
                },
                Ordering::Greater => {
                    proof {
                        assert(lt(*v, *item));
                        assert(!Self::subtree_elems(self.left).contains(*item));
                    }
                    match &self.right {
                        Some(r) => r.contains(item),
                        None => false,
                    }
                },
            },
        }
    }

    /// The least value held, or `None` for an empty tree.
    pub fn min(&self) -> (r: Option<&T>)
        requires
            self.wf(),
        ensures
            r is None ==> self@ == Set::<T>::empty(),
            r is Some ==> is_least(self@, *r.unwrap()),
        decreases self,
    {
        proof {
            self.lemma_node();
            lemma_lt_facts::<T>();
        }
        match &self.value {
            None => None,
            Some(v) => match &self.left {
                Some(l) => match l.min() {
                    Some(m) => Some(m),
                    None => Some(v),
                },
                None => Some(v),
            },
        }
    }

    /// The greatest value held, or `None` for an empty tree.
    pub fn max(&self) -> (r: Option<&T>)
        requires
            self.wf(),
        ensures
            r is None ==> self@ == Set::<T>::empty(),
            r is Some ==> is_greatest(self@, *r.unwrap()),
        decreases self,
    {
        proof {
            self.lemma_node();
            lemma_lt_facts::<T>();
        }
        match &self.value {
            None => None,
            Some(v) => match &self.right {
                Some(r) => match r.max() {
                    Some(m) => Some(m),
                    None => Some(v),
                },
                None => Some(v),
            },
        }
    }

    /// The greatest value held that is strictly less than `item`.
    pub fn floor(&self, item: &T) -> (r: Option<&T>)
        requires
            self.wf(),
        ensures
            r is None ==> forall|x: T| self@.contains(x) ==> !lt(x, *item),
            r is Some ==> is_floor(self@, *item, *r.unwrap()),
            r is Some ==> *r.unwrap() != *item,
        decreases self,
    {
        proof {
            self.lemma_node();
            lemma_lt_facts::<T>();
        }
        match &self.value {
            None => None,
            Some(v) => match item.cmp(v) {
                Ordering::Greater => match &self.right {
                    None => Some(v),
                    Some(r) => match r.floor(item) {
                        None => Some(v),
                        Some(f) => Some(f),
                    },
                },
                _ => match &self.left {
                    Some(l) => l.floor(item),
                    None => None,
                },
            },
        }
    }

    /// The least value held that is strictly greater than `item`.
    pub fn ceil(&self, item: &T) -> (r: Option<&T>)
        requires
            self.wf(),
        ensures
            r is None ==> forall|x: T| self@.contains(x) ==> !lt(*item, x),
            r is Some ==> is_ceil(self@, *item, *r.unwrap()),
            r is Some ==> *r.unwrap() != *item,
        decreases self,
    {
        proof {
            self.lemma_node();
            lemma_lt_facts::<T>();
        }
        match &self.value {
            None => None,
            Some(v) => match item.cmp(v) {
                Ordering::Less => match &self.left {
                    None => Some(v),
                    Some(l) => match l.ceil(item) {
                        None => Some(v),
                        Some(c) => Some(c),
                    },
                },
                _ => match &self.right {
                    Some(r) => r.ceil(item),
                    None => None,
                },
            },
        }
    }
}

impl<T: Ord> BinarySearchTree<T> {
    /// An iterator over references to the values, in ascending order. The
    /// tree is left as it is.
    pub fn iter(&self) -> (it: BinarySearchTreeIterator<&T>)
        requires
            self.wf(),
        ensures
            lists_in_order(derefs(it@), self@),
    {
        let mut inner = Queue::new();
        self.iter_inner(&mut inner);
        proof {
            assert(derefs(Seq::<&T>::empty()) =~= Seq::<T>::empty());
            assert(derefs(inner@) =~= self.in_order());
            self.lemma_in_order();
        }
        BinarySearchTreeIterator { inner }
    }

    fn iter_inner<'a>(&'a self, refs: &mut Queue<&'a T>)
        requires
            self.wf(),
        ensures
            derefs(final(refs)@) == derefs(old(refs)@) + self.in_order(),
        decreases self,
    {
        proof {
            self.lemma_node();
        }
        let ghost start = derefs(refs@);
        if let Some(l) = &self.left {
            l.iter_inner(refs);
        }
        let ghost after_left = derefs(refs@);
        assert(after_left =~= start + Self::subtree_in_order(self.left));
        if let Some(v) = &self.value {
            let ghost before = refs@;
            refs.enqueue(v);
            proof {
                assert(derefs(refs@) =~= derefs(before).push(*v));
            }
        }
        let ghost after_value = derefs(refs@);
        if let Some(r) = &self.right {
            r.iter_inner(refs);
        }
        assert(derefs(refs@) =~= after_value + Self::subtree_in_order(self.right));
        assert(derefs(refs@) =~= start + self.in_order());
    }

    /// Moves every value, in ascending order, into an iterator.
    pub fn into_iter(self) -> (it: BinarySearchTreeIterator<T>)
        requires
            self.wf(),
        ensures
            lists_in_order(it@, self@),
    {
        proof {
            self.lemma_in_order();
            self.lemma_shaped();
        }
        let ghost whole = self;
        let mut inner = Queue::new();
        Self::into_iter_inner(Some(Box::new(self)), &mut inner);
        proof {
            assert(Self::subtree_in_order(Some(Box::new(whole))) == whole.in_order());
            assert(inner@ =~= whole.in_order());
        }
        BinarySearchTreeIterator { inner }
    }

    /// Every node of `t` without a value is a leaf.
    spec fn shaped(t: Option<Box<BinarySearchTree<T>>>) -> bool
        decreases t,
    {
        match t {
            None => true,
            Some(b) => {
                &&& (b.value is None ==> b.left is None && b.right is None)
                &&& Self::shaped(b.left)
                &&& Self::shaped(b.right)
            },
        }
    }

    proof fn lemma_shaped(self)
        requires
            self.ordered(),
        ensures
            Self::shaped(Some(Box::new(self))),
        decreases self,
    {
        if self.value is Some {
            assert(Self::subtree_ordered(self.left));
            assert(Self::subtree_ordered(self.right));
            match self.left {
                Some(l) => {
                    l.lemma_shaped();
                    assert(Self::shaped(self.left));
                },
                None => {},
            }
            match self.right {
                Some(r) => {
                    r.lemma_shaped();
                    assert(Self::shaped(self.right));
                },
                None => {},
            }
        } else {
            assert(self.left is None && self.right is None);
            assert(Self::shaped(self.left) && Self::shaped(self.right));
        }
        reveal_with_fuel(BinarySearchTree::shaped, 2);
    }

    /// Moves the values of `t` onto `refs` in traversal order. A node with a
    /// left child is rotated right, one without gives up its value and makes
    /// way for its right subtree, so a degenerate tree costs no call per
    /// level.
    fn into_iter_inner(t: Option<Box<BinarySearchTree<T>>>, refs: &mut Queue<T>)
        requires
            Self::shaped(t),
        ensures
            final(refs)@ == old(refs)@ + Self::subtree_in_order(t),
    {
        let mut cur = t;
        loop
            invariant
                Self::shaped(cur),
                refs@ + Self::subtree_in_order(cur) == old(refs)@ + Self::subtree_in_order(t),
            ensures
                refs@ == old(refs)@ + Self::subtree_in_order(t),
            decreases 2 * size(cur) - spine(cur),
        {
            proof {
                lemma_spine_le_size(cur);
            }
            match cur {
                None => {
                    proof {
                        assert(refs@ =~= refs@ + Self::subtree_in_order(cur));
                    }
                    break;
                },
                Some(mut node) => {
                    let ghost node0 = *node;
                    let ghost before = refs@;
                    match node.left.take() {
                        Some(mut l) => {
                            let ghost l0 = *l;
                            assert(node0.left == Some(Box::new(l0)));
                            assert(Self::shaped(node0.left));
                            assert(Self::shaped(node0.right));
                            if l.value.is_none() {
                                cur = Some(node);
                                proof {
                                    assert(l0.left is None && l0.right is None);
                                    assert(size(l0.left) == 0 && size(l0.right) == 0);
                                    assert(Self::subtree_in_order(node0.left) == Seq::<T>::empty());
                                    assert(size(node0.left) == 1);
                                    assert(node0.value is Some);
                                    assert(cur == Some(Box::new(BinarySearchTree { value: node0.value, left: None, right: node0.right })));
                                    assert(Self::subtree_in_order(None) == Seq::<T>::empty());
                                    assert(Self::subtree_in_order(cur) =~= Self::subtree_in_order(Some(Box::new(node0))));
                                    assert(size::<T>(None) == 0);
                                    assert(size(cur) == 1 + size(node0.right));
                                    assert(Self::shaped(cur));
                                    assert(size(cur) + 1 == size(Some(Box::new(node0))));
                                    assert(spine(cur) == spine(Some(Box::new(node0))));
                                }
                            } else {
                                node.left = l.right.take();
                                let ghost node1 = *node;
                                l.right = Some(node);
                                cur = Some(l);
                                proof {
                                    assert(node0.value is Some);
                                    assert(Self::subtree_in_order(node0.left) == Self::subtree_in_order(l0.left)
                                        + seq![l0.value.unwrap()] + Self::subtree_in_order(l0.right));
                                    assert(Self::subtree_in_order(Some(Box::new(node1))) == Self::subtree_in_order(l0.right)
                                        + seq![node0.value.unwrap()] + Self::subtree_in_order(node0.right));
                                    assert(Self::subtree_in_order(cur) =~= Self::subtree_in_order(Some(Box::new(node0))));
                                    assert(size(node0.left) == 1 + size(l0.left) + size(l0.right));
                                    assert(size(Some(Box::new(node1))) == 1 + size(l0.right) + size(node0.right));
                                    assert(node1 == BinarySearchTree { value: node0.value, left: l0.right, right: node0.right });
                                    assert(cur == Some(Box::new(BinarySearchTree { value: l0.value, left: l0.left, right: Some(Box::new(node1)) })));
                                    assert(size(cur) == 1 + size(l0.left) + size(Some(Box::new(node1))));
                                    assert(size(cur) == size(Some(Box::new(node0))));
                                    assert(spine(Some(Box::new(node1))) == 1 + spine(node0.right));
                                    assert(spine(cur) == 1 + spine(Some(Box::new(node0))));
                                    assert(Self::shaped(l0.left) && Self::shaped(l0.right));
                                    assert(Self::shaped(Some(Box::new(node1))));
                                    assert(Self::shaped(cur));
                                }
                            }
                        },
                        None => {
                            let right = node.right.take();
                            if let Some(v) = node.value.take() {
                                refs.enqueue(v);
                            }
                            cur = right;
                            proof {
                                assert(Self::shaped(node0.right));
                                assert(node0.left is None);
                                assert(size(node0.left) == 0);
                                assert(size(Some(Box::new(node0))) == 1 + size(cur));
                                assert(spine(Some(Box::new(node0))) == 1 + spine(cur));
                                assert(Self::subtree_in_order(node0.left) == Seq::<T>::empty());
                                assert(before + Self::subtree_in_order(Some(Box::new(node0))) =~= refs@
                                    + Self::subtree_in_order(cur));
                            }
                        },
                    }
                },
            }
        }
    }
}

/// The number of nodes in a subtree.
spec fn size<T: Ord>(t: Option<Box<BinarySearchTree<T>>>) -> nat
    decreases t,
{
    match t {
        None => 0,
        Some(b) => 1 + size(b.left) + size(b.right),
    }
}

/// The number of nodes on a subtree's right spine: its root, that root's
/// right child, and so on.
spec fn spine<T: Ord>(t: Option<Box<BinarySearchTree<T>>>) -> nat
    decreases t,
{
    match t {
        None => 0,
        Some(b) => 1 + spine(b.right),
    }
}

proof fn lemma_spine_le_size<T: Ord>(t: Option<Box<BinarySearchTree<T>>>)
    ensures
        spine(t) <= size(t),
    decreases t,
{
    match t {
        None => {},
        Some(b) => lemma_spine_le_size(b.right),
    }
}

impl<T: Ord> BinarySearchTree<T> {
    /// Empties the tree without a call per level: a node with a left child
    /// is rotated right, and one without is unlinked, so that a degenerate
    /// tree is released in a loop.
    fn release(&mut self)
        ensures
            final(self)@ == Set::<T>::empty(),
            final(self).value is None && final(self).left is None && final(self).right is None,
        opens_invariants none
        no_unwind
    {
        self.value = None;
        let mut left: Option<Box<BinarySearchTree<T>>> = None;
        std::mem::swap(&mut self.left, &mut left);
        Self::release_subtree(left);
        let mut right: Option<Box<BinarySearchTree<T>>> = None;
        std::mem::swap(&mut self.right, &mut right);
        Self::release_subtree(right);
    }

    fn release_subtree(t: Option<Box<BinarySearchTree<T>>>)
        opens_invariants none
        no_unwind
    {
        let mut cur = t;
        loop
            decreases 2 * size(cur) - spine(cur),
        {
            proof {
                lemma_spine_le_size(cur);
            }
            match cur {
                None => break,
                Some(mut node) => {
                    let ghost node0 = *node;
                    let mut left: Option<Box<BinarySearchTree<T>>> = None;
                    std::mem::swap(&mut node.left, &mut left);
                    match left {
                        Some(mut l) => {
                            let ghost l0 = *l;
                            let mut inner: Option<Box<BinarySearchTree<T>>> = None;
                            std::mem::swap(&mut l.right, &mut inner);
                            node.left = inner;
                            proof {
                                assert(size(Some(node)) == 1 + size(l0.right) + size(node0.right));
                                assert(spine(Some(node)) == 1 + spine(node0.right));
                            }
                            l.right = Some(node);
                            cur = Some(l);
                            proof {
                                assert(node0.left == Some(Box::new(l0)));
                                assert(size(node0.left) == 1 + size(l0.left) + size(l0.right));
                                assert(spine(node0.left) == 1 + spine(l0.right));
                                assert(size(cur) == 1 + size(l0.left) + size(l.right));
                                assert(spine(cur) == 1 + spine(l.right));
                                assert(size(cur) == size(Some(Box::new(node0))));
                                assert(spine(cur) == 1 + spine(Some(Box::new(node0))));
                            }
                        },
                        None => {
                            let mut right: Option<Box<BinarySearchTree<T>>> = None;
                            std::mem::swap(&mut node.right, &mut right);
                            cur = right;
                            proof {
                                assert(node0.left is None);
                                assert(size(node0.left) == 0);
                                assert(cur == node0.right);
                                assert(size(Some(Box::new(node0))) == 1 + size(cur));
                                assert(spine(Some(Box::new(node0))) == 1 + spine(cur));
                            }
                        },
                    }
                },
            }
        }
    }
}

/// Releases the tree through `release`, one node at a time, rather than by
/// nested drops of each node's subtrees.
impl<T: Ord> Drop for BinarySearchTree<T> {
    fn drop(&mut self)
        opens_invariants none
        no_unwind
    {
        let tree: &mut BinarySearchTree<T> = self;
        BinarySearchTree::<T>::release(tree);
    }
}

/// The view of a tree that started empty and had the values of `xs`
/// inserted, in order, as the contracts of `new` and `insert` state it.
pub open spec fn after_inserts<T>(xs: Seq<T>) -> Set<T>
    decreases xs.len(),
{
    if xs.len() == 0 {
        Set::empty()
    } else {
        after_inserts(xs.drop_last()).insert(xs.last())
    }
}

/// Membership and order after inserts: once the values of `xs` have been
/// inserted into an empty tree, a value is held exactly when it was inserted
/// at least once, however often; and a traversal `q` of that tree, as `iter`
/// and `into_iter` give it, is strictly ascending, lists each distinct
/// inserted value once, and nothing else.
pub proof fn lemma_inserts<T: Ord>(xs: Seq<T>, q: Seq<T>)
    requires
        total_order::<T>(),
        lists_in_order(q, after_inserts(xs)),
    ensures
        forall|x: T| after_inserts(xs).contains(x) <==> xs.contains(x),
        strictly_ascending(q),
        q.no_duplicates(),
        forall|x: T| q.contains(x) <==> xs.contains(x),
{
    lemma_inserted_values(xs);
    lemma_lt_facts::<T>();
    assert forall|i: int, j: int| 0 <= i < q.len() && 0 <= j < q.len() && i != j implies q[i]
        != q[j] by {
        if i < j {
            assert(lt(q[i], q[j]));
        } else {
            assert(lt(q[j], q[i]));
        }
    }
    assert forall|x: T| q.contains(x) <==> xs.contains(x) by {
        assert(q.to_set().contains(x) <==> q.contains(x));
    }
}

/// A value is in `after_inserts(xs)` exactly when `xs` holds it.
proof fn lemma_inserted_values<T>(xs: Seq<T>)
    ensures
        forall|x: T| after_inserts(xs).contains(x) <==> xs.contains(x),
    decreases xs.len(),
{
    if xs.len() > 0 {
        let init = xs.drop_last();
        lemma_inserted_values(init);
        assert forall|x: T| after_inserts(xs).contains(x) <==> xs.contains(x) by {
            if init.contains(x) {
                let k = choose|k: int| 0 <= k < init.len() && init[k] == x;
                assert(xs[k] == x);
            }
            if xs.contains(x) && x != xs.last() {
                let k = choose|k: int| 0 <= k < xs.len() && xs[k] == x;
                assert(init[k] == x);
            }
            if x == xs.last() {
                assert(xs[xs.len() - 1] == x);
            }
        }
    }
}

} // verus!
