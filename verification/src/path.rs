//! Paths as lists of components.

use crate::order::Ranked;
use vstd::prelude::*;

verus! {

/// A path: the raw bytes of its components, outermost first.
#[derive(Clone, Debug)]
pub struct DirPath {
    pub names: Vec<Vec<u8>>,
}

/// The components of a path.
pub type Names = Seq<Seq<u8>>;

impl View for DirPath {
    type V = Seq<Seq<u8>>;

    open spec fn view(&self) -> Seq<Seq<u8>> {
        self.names.deep_view()
    }
}

/// Byte strings in dictionary order, strictly.
pub open spec fn bytes_before(a: Seq<u8>, b: Seq<u8>) -> bool
    decreases a.len(),
{
    if b.len() == 0 {
        false
    } else if a.len() == 0 {
        true
    } else if a[0] == b[0] {
        bytes_before(a.skip(1), b.skip(1))
    } else {
        a[0] < b[0]
    }
}

/// Paths in order, strictly: component by component, a path before the paths under it.
pub open spec fn path_before(a: Names, b: Names) -> bool
    decreases a.len(),
{
    if b.len() == 0 {
        false
    } else if a.len() == 0 {
        true
    } else if a[0] == b[0] {
        path_before(a.skip(1), b.skip(1))
    } else {
        bytes_before(a[0], b[0])
    }
}

/// Whether `q` is `p` or a path under it.
pub open spec fn within(q: Names, p: Names) -> bool {
    p.len() <= q.len() && q.take(p.len() as int) == p
}

/// Of two different byte strings exactly one comes first.
pub proof fn bytes_order_is_total(a: Seq<u8>, b: Seq<u8>)
    ensures
        a == b || bytes_before(a, b) || bytes_before(b, a),
        !(bytes_before(a, b) && bytes_before(b, a)),
        !bytes_before(a, a),
    decreases a.len(),
{
    if a.len() > 0 && b.len() > 0 && a[0] == b[0] {
        bytes_order_is_total(a.skip(1), b.skip(1));
        if a.skip(1) == b.skip(1) {
            assert(a == seq![a[0]] + a.skip(1));
            assert(b == seq![b[0]] + b.skip(1));
        }
    }
    if a.len() == 0 && b.len() == 0 {
        assert(a == b);
    }
    if a.len() > 0 {
        bytes_order_is_total(a.skip(1), a.skip(1));
    }
}

/// The order of byte strings is transitive.
pub proof fn bytes_order_is_transitive(a: Seq<u8>, b: Seq<u8>, c: Seq<u8>)
    requires
        bytes_before(a, b),
        bytes_before(b, c),
    ensures
        bytes_before(a, c),
    decreases a.len(),
{
    if a.len() > 0 && a[0] == b[0] && b[0] == c[0] {
        bytes_order_is_transitive(a.skip(1), b.skip(1), c.skip(1));
    }
}

/// Of two different paths exactly one comes first.
pub proof fn path_order_is_total(a: Names, b: Names)
    ensures
        a == b || path_before(a, b) || path_before(b, a),
        !(path_before(a, b) && path_before(b, a)),
        !path_before(a, a),
    decreases a.len(),
{
    if a.len() > 0 && b.len() > 0 {
        bytes_order_is_total(a[0], b[0]);
        if a[0] == b[0] {
            path_order_is_total(a.skip(1), b.skip(1));
            if a.skip(1) == b.skip(1) {
                assert(a == seq![a[0]] + a.skip(1));
                assert(b == seq![b[0]] + b.skip(1));
            }
        }
    }
    if a.len() == 0 && b.len() == 0 {
        assert(a == b);
    }
    if a.len() > 0 {
        path_order_is_total(a.skip(1), a.skip(1));
    }
}

/// The order of paths is transitive.
pub proof fn path_order_is_transitive(a: Names, b: Names, c: Names)
    requires
        path_before(a, b),
        path_before(b, c),
    ensures
        path_before(a, c),
    decreases a.len(),
{
    if a.len() > 0 {
        if a[0] == b[0] && b[0] == c[0] {
            path_order_is_transitive(a.skip(1), b.skip(1), c.skip(1));
        } else if a[0] != b[0] && b[0] != c[0] {
            bytes_order_is_transitive(a[0], b[0], c[0]);
            bytes_order_is_total(a[0], c[0]);
            bytes_order_is_total(a[0], b[0]);
        }
    }
}

/// A path comes before every path under it.
pub proof fn path_before_descendant(p: Names, q: Names)
    requires
        within(q, p),
        p != q,
    ensures
        path_before(p, q),
    decreases p.len(),
{
    if p.len() == 0 {
        assert(p == Seq::<Seq<u8>>::empty());
        if q.len() == 0 {
            assert(p == q);
        }
    } else {
        assert(q.take(p.len() as int)[0] == p[0]);
        assert(q.skip(1).take(p.len() - 1) == p.skip(1)) by {
            assert(q.skip(1).take(p.len() - 1) == q.take(p.len() as int).skip(1));
        }
        if p.skip(1) == q.skip(1) {
            assert(p == seq![p[0]] + p.skip(1));
            assert(q == seq![q[0]] + q.skip(1));
        }
        path_before_descendant(p.skip(1), q.skip(1));
    }
}

/// What lies between a path and a path under it is under it too.
pub proof fn subtree_is_interval(p: Names, r: Names, q: Names)
    requires
        within(q, p),
        p == r || path_before(p, r),
        r == q || path_before(r, q),
    ensures
        within(r, p),
    decreases p.len(),
{
    if p.len() == 0 {
        assert(r.take(0) == p);
    } else if p != r && r != q {
        assert(q.take(p.len() as int)[0] == p[0]);
        bytes_order_is_total(p[0], r[0]);
        assert(r[0] == p[0]);
        assert(q.skip(1).take(p.len() - 1) == p.skip(1)) by {
            assert(q.skip(1).take(p.len() - 1) == q.take(p.len() as int).skip(1));
        }
        subtree_is_interval(p.skip(1), r.skip(1), q.skip(1));
        assert(r.take(p.len() as int) == seq![r[0]] + r.skip(1).take(p.len() - 1));
        assert(p == seq![p[0]] + p.skip(1));
    } else {
        assert(p.take(p.len() as int) == p);
    }
}

/// Paths under one root are ordered as their parts below it.
pub proof fn order_below_root(root: Names, a: Names, b: Names)
    ensures
        path_before(root + a, root + b) == path_before(a, b),
    decreases root.len(),
{
    if root.len() == 0 {
        assert(root + a == a);
        assert(root + b == b);
    } else {
        order_below_root(root.skip(1), a, b);
        assert((root + a).skip(1) == root.skip(1) + a);
        assert((root + b).skip(1) == root.skip(1) + b);
        assert((root + a)[0] == root[0]);
        assert((root + b)[0] == root[0]);
    }
}

/// The bytes of one name, seen through the view of the list that holds it.
pub proof fn name_view(names: Vec<Vec<u8>>, i: int)
    requires
        0 <= i < names@.len(),
    ensures
        names.deep_view()[i] == names@[i]@,
        names.deep_view().len() == names@.len(),
{
    assert(names@[i].deep_view() == names@[i]@);
}

/// A list of names by the bytes of each.
pub proof fn names_view(names: Vec<Vec<u8>>)
    ensures
        names.deep_view() == names@.map_values(|n: Vec<u8>| n@),
{
    assert forall|i: int| 0 <= i < names@.len() implies names.deep_view()[i] == #[trigger] names@[i]@ by {
        name_view(names, i);
    }
    assert(names.deep_view() =~= names@.map_values(|n: Vec<u8>| n@));
}

/// Whether two byte strings are the same.
pub fn same_bytes(a: &Vec<u8>, b: &Vec<u8>) -> (same: bool)
    ensures
        same == (a@ == b@),
{
    if a.len() != b.len() {
        return false;
    }
    let mut i: usize = 0;
    while i < a.len()
        invariant
            i <= a@.len(),
            a@.len() == b@.len(),
            forall|j: int| 0 <= j < i ==> a@[j] == b@[j],
        decreases a@.len() - i,
    {
        if a[i] != b[i] {
            return false;
        }
        i += 1;
    }
    assert(a@ =~= b@);
    true
}

/// A copy of a byte string.
pub fn copy_bytes(a: &Vec<u8>) -> (copy: Vec<u8>)
    ensures
        copy@ == a@,
{
    let mut copy: Vec<u8> = Vec::new();
    let mut i: usize = 0;
    while i < a.len()
        invariant
            i <= a@.len(),
            copy@ == a@.take(i as int),
        decreases a@.len() - i,
    {
        copy.push(a[i]);
        assert(a@.take(i + 1) == a@.take(i as int).push(a@[i as int]));
        i += 1;
    }
    assert(a@.take(i as int) == a@);
    copy
}

/// The first `n` of a list of names, copied.
pub fn copy_names(names: &Vec<Vec<u8>>, n: usize) -> (copy: Vec<Vec<u8>>)
    requires
        n <= names@.len(),
    ensures
        copy.deep_view() == names.deep_view().take(n as int),
{
    let mut copy: Vec<Vec<u8>> = Vec::new();
    let mut i: usize = 0;
    while i < n
        invariant
            i <= n <= names@.len(),
            copy@.len() == i,
            forall|j: int| 0 <= j < i ==> (#[trigger] copy@[j])@ == names@[j]@,
        decreases n - i,
    {
        copy.push(copy_bytes(&names[i]));
        i += 1;
    }
    proof {
        names_view(copy);
        names_view(*names);
        assert(copy.deep_view() =~= names.deep_view().take(n as int));
    }
    copy
}

/// Whether `a` may stand before `b` in dictionary order.
fn bytes_may_precede(a: &Vec<u8>, b: &Vec<u8>) -> (r: bool)
    ensures
        r == !bytes_before(b@, a@),
{
    let mut i: usize = 0;
    assert(a@.skip(0) == a@);
    assert(b@.skip(0) == b@);
    loop
        invariant
            i <= a@.len(),
            i <= b@.len(),
            bytes_before(b@, a@) == bytes_before(b@.skip(i as int), a@.skip(i as int)),
        decreases a@.len() - i,
    {
        if i == a.len() {
            return true;
        }
        if i == b.len() {
            return false;
        }
        assert(a@.skip(i as int)[0] == a@[i as int]);
        assert(b@.skip(i as int)[0] == b@[i as int]);
        if a[i] != b[i] {
            return a[i] < b[i];
        }
        assert(a@.skip(i as int).skip(1) == a@.skip(i + 1));
        assert(b@.skip(i as int).skip(1) == b@.skip(i + 1));
        i += 1;
    }
}

impl Ranked for DirPath {
    open spec fn le(self, other: Self) -> bool {
        !path_before(other@, self@)
    }

    proof fn le_total(a: Self, b: Self) {
        path_order_is_total(a@, b@);
    }

    proof fn le_transitive(a: Self, b: Self, c: Self) {
        path_order_is_total(a@, b@);
        path_order_is_total(b@, c@);
        if path_before(c@, a@) {
            if a@ != b@ && b@ != c@ {
                path_order_is_transitive(a@, b@, c@);
                path_order_is_total(a@, c@);
            }
        }
    }

    fn may_precede(&self, other: &Self) -> (r: bool) {
        let a = &self.names;
        let b = &other.names;
        let ghost p = self@;
        let ghost q = other@;
        let mut i: usize = 0;
        assert(p.skip(0) == p);
        assert(q.skip(0) == q);
        proof {
            names_view(self.names);
            names_view(other.names);
        }
        loop
            invariant
                p == a.deep_view(),
                q == b.deep_view(),
                p == a@.map_values(|n: Vec<u8>| n@),
                q == b@.map_values(|n: Vec<u8>| n@),
                i <= p.len(),
                i <= q.len(),
                path_before(q, p) == path_before(q.skip(i as int), p.skip(i as int)),
                p == self@,
                q == other@,
            decreases p.len() - i,
        {
            if i == a.len() {
                return true;
            }
            if i == b.len() {
                return false;
            }
            assert(p.skip(i as int)[0] == a@[i as int]@);
            assert(q.skip(i as int)[0] == b@[i as int]@);
            if !same_bytes(&a[i], &b[i]) {
                return bytes_may_precede(&a[i], &b[i]);
            }
            assert(p.skip(i as int).skip(1) == p.skip(i + 1));
            assert(q.skip(i as int).skip(1) == q.skip(i + 1));
            i += 1;
        }
    }
}

impl DirPath {
    /// Whether two paths have the same components.
    pub fn same(&self, other: &DirPath) -> (same: bool)
        ensures
            same == (self@ == other@),
    {
        assert(self@.take(self@.len() as int) == self@);
        self.names.len() == other.names.len() && self.is_within(other)
    }

    /// Whether this path is `top` or a path under it.
    pub fn is_within(&self, top: &DirPath) -> (r: bool)
        ensures
            r == within(self@, top@),
    {
        proof {
            names_view(self.names);
            names_view(top.names);
        }
        if top.names.len() > self.names.len() {
            return false;
        }
        let mut i: usize = 0;
        while i < top.names.len()
            invariant
                i <= top.names@.len() <= self.names@.len(),
                self@ == self.names@.map_values(|n: Vec<u8>| n@),
                top@ == top.names@.map_values(|n: Vec<u8>| n@),
                forall|j: int| 0 <= j < i ==> self@[j] == top@[j],
            decreases top.names@.len() - i,
        {
            if !same_bytes(&self.names[i], &top.names[i]) {
                assert(self@.take(top@.len() as int)[i as int] != top@[i as int]);
                return false;
            }
            i += 1;
        }
        assert(self@.take(top@.len() as int) =~= top@);
        true
    }

    /// The path without its last component; the empty path has none.
    pub fn parent(&self) -> (r: Option<DirPath>)
        ensures
            match r {
                Some(p) => self@.len() > 0 && p@ == self@.drop_last(),
                None => self@.len() == 0,
            },
    {
        if self.names.len() == 0 {
            return None;
        }
        let names = copy_names(&self.names, self.names.len() - 1);
        assert(self@.take(self@.len() - 1) == self@.drop_last());
        Some(DirPath { names })
    }

    /// A copy of the path.
    pub fn copy(&self) -> (r: DirPath)
        ensures
            r@ == self@,
    {
        let names = copy_names(&self.names, self.names.len());
        assert(self@.take(self@.len() as int) == self@);
        DirPath { names }
    }

    /// The path `below` under this one.
    pub fn join(&self, below: &DirPath) -> (r: DirPath)
        ensures
            r@ == self@ + below@,
    {
        let mut names = copy_names(&self.names, self.names.len());
        let ghost top = self@;
        assert(self@.take(self@.len() as int) == self@);
        let mut i: usize = 0;
        proof {
            names_view(below.names);
        }
        while i < below.names.len()
            invariant
                i <= below.names@.len(),
                below@ == below.names@.map_values(|n: Vec<u8>| n@),
                names.deep_view() == top + below@.take(i as int),
                top == self@,
            decreases below.names@.len() - i,
        {
            let ghost before = names;
            names.push(copy_bytes(&below.names[i]));
            proof {
                names_view(before);
                names_view(names);
                assert(names.deep_view() =~= before.deep_view().push(below@[i as int]));
                assert(below@.take(i + 1) == below@.take(i as int).push(below@[i as int]));
            }
            i += 1;
        }
        assert(below@.take(i as int) == below@);
        DirPath { names }
    }
}

} // verus!
