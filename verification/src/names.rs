//! Fully-qualified names of components and datatypes.
use vstd::prelude::*;

verus! {

/// `rerun.`
pub open spec fn rerun_prefix() -> Seq<char> {
    seq!['r', 'e', 'r', 'u', 'n', '.']
}

/// `rerun.components.`
pub open spec fn components_prefix() -> Seq<char> {
    seq!['r', 'e', 'r', 'u', 'n', '.', 'c', 'o', 'm', 'p', 'o', 'n', 'e', 'n', 't', 's', '.']
}

/// `rerun.datatypes.`
pub open spec fn datatypes_prefix() -> Seq<char> {
    seq!['r', 'e', 'r', 'u', 'n', '.', 'd', 'a', 't', 'a', 't', 'y', 'p', 'e', 's', '.']
}

pub open spec fn has_prefix(s: Seq<char>, p: Seq<char>) -> bool {
    p.len() <= s.len() && s.subrange(0, p.len() as int) == p
}

/// `s` without `first` if it starts with it, else without `second` if it starts with that,
/// else `s` itself.
pub open spec fn strip_either(s: Seq<char>, first: Seq<char>, second: Seq<char>) -> Seq<char> {
    if has_prefix(s, first) {
        s.skip(first.len() as int)
    } else if has_prefix(s, second) {
        s.skip(second.len() as int)
    } else {
        s
    }
}

/// Whether `s` starts with `p`.
fn starts_with(s: &str, p: &str) -> (r: bool)
    ensures
        r == has_prefix(s@, p@),
{
    let sn = s.unicode_len();
    let pn = p.unicode_len();
    if pn > sn {
        return false;
    }
    let mut i: usize = 0;
    while i < pn
        invariant
            sn == s@.len(),
            pn == p@.len(),
            pn <= sn,
            i <= pn,
            forall|j: int| 0 <= j < i ==> s@[j] == p@[j],
        decreases pn - i,
    {
        if s.get_char(i) != p.get_char(i) {
            proof {
                assert(s@.subrange(0, pn as int)[i as int] != p@[i as int]);
            }
            return false;
        }
        i = i + 1;
    }
    proof {
        assert(s@.subrange(0, pn as int) =~= p@);
    }
    true
}

/// `s` without the first `n` characters.
fn skip_chars(s: &str, n: usize) -> (r: &str)
    requires
        n <= s@.len(),
    ensures
        r@ == s@.skip(n as int),
{
    let len = s.unicode_len();
    let r = s.substring_char(n, len);
    proof {
        assert(r@ =~= s@.skip(n as int));
    }
    r
}

/// The fully-qualified name of a component, e.g. `rerun.components.Point2D`.
#[derive(Debug)]
pub struct ComponentName {
    pub name: String,
}

impl View for ComponentName {
    type V = Seq<char>;

    open spec fn view(&self) -> Seq<char> {
        self.name@
    }
}

impl ComponentName {
    pub fn new(name: &str) -> (r: ComponentName)
        ensures
            r@ == name@,
    {
        ComponentName { name: name.to_string() }
    }

    /// Returns the fully-qualified name, e.g. `rerun.components.Point2D`.
    pub fn full_name(&self) -> (r: &str)
        ensures
            r@ == self@,
    {
        self.name.as_str()
    }

    /// Returns the unqualified name, e.g. `Point2D` for `rerun.components.Point2D`: the name
    /// without a leading `rerun.components.`, else without a leading `rerun.`, else the full
    /// name.
    pub fn short_name(&self) -> (r: &str)
        ensures
            r@ == strip_either(self@, components_prefix(), rerun_prefix()),
    {
        let full = self.name.as_str();
        proof {
            reveal_strlit("rerun.");
            reveal_strlit("rerun.components.");
            assert("rerun."@ =~= rerun_prefix());
            assert("rerun.components."@ =~= components_prefix());
        }
        if starts_with(full, "rerun.components.") {
            skip_chars(full, 17)
        } else if starts_with(full, "rerun.") {
            skip_chars(full, 6)
        } else {
            full
        }
    }

    pub fn same(&self, other: &ComponentName) -> (r: bool)
        ensures
            r == (self@ == other@),
    {
        self.name == other.name
    }

    pub fn duplicate(&self) -> (r: ComponentName)
        ensures
            r@ == self@,
    {
        ComponentName { name: self.name.clone() }
    }
}

/// The fully-qualified name of a datatype, e.g. `rerun.datatypes.Vec2D`.
#[derive(Debug)]
pub struct DatatypeName {
    pub name: String,
}

impl View for DatatypeName {
    type V = Seq<char>;

    open spec fn view(&self) -> Seq<char> {
        self.name@
    }
}

impl DatatypeName {
    pub fn new(name: &str) -> (r: DatatypeName)
        ensures
            r@ == name@,
    {
        DatatypeName { name: name.to_string() }
    }

    /// Returns the fully-qualified name, e.g. `rerun.datatypes.Vec2D`.
    pub fn full_name(&self) -> (r: &str)
        ensures
            r@ == self@,
    {
        self.name.as_str()
    }

    /// Returns the unqualified name, e.g. `Vec2D` for `rerun.datatypes.Vec2D`: the name
    /// without a leading `rerun.datatypes.`, else without a leading `rerun.`, else the full
    /// name.
    pub fn short_name(&self) -> (r: &str)
        ensures
            r@ == strip_either(self@, datatypes_prefix(), rerun_prefix()),
    {
        let full = self.name.as_str();
        proof {
            reveal_strlit("rerun.");
            reveal_strlit("rerun.datatypes.");
            assert("rerun."@ =~= rerun_prefix());
            assert("rerun.datatypes."@ =~= datatypes_prefix());
        }
        if starts_with(full, "rerun.datatypes.") {
            skip_chars(full, 16)
        } else if starts_with(full, "rerun.") {
            skip_chars(full, 6)
        } else {
            full
        }
    }
}

// --- Loggable data ---

/// A single instance of loggable data, named by its fully-qualified name. Arrow
/// serialization is left to the implementors.
pub trait Loggable: Clone + Sized {
    type Name;

    /// The fully-qualified name of this loggable, e.g. `rerun.datatypes.Vec2D`.
    fn name() -> Self::Name;
}

/// Plain old data that any number of components can use: a loggable named by a
/// [`DatatypeName`].
pub trait Datatype: Loggable<Name = DatatypeName> {}

impl<L: Loggable<Name = DatatypeName>> Datatype for L {}

/// Semantic data that any number of archetypes can use: a loggable named by a
/// [`ComponentName`].
pub trait Component: Loggable<Name = ComponentName> {}

impl<L: Loggable<Name = ComponentName>> Component for L {}

/// An array's worth of loggable instances.
pub trait LoggableList {
    type Name;

    /// The fully-qualified name of the instances.
    fn name(&self) -> Self::Name;
}

/// An array's worth of datatype instances: a list named by a [`DatatypeName`].
pub trait DatatypeList: LoggableList<Name = DatatypeName> {}

impl<L: LoggableList<Name = DatatypeName>> DatatypeList for L {}

/// An array's worth of component instances: a list named by a [`ComponentName`].
pub trait ComponentList: LoggableList<Name = ComponentName> {}

impl<L: LoggableList<Name = ComponentName>> ComponentList for L {}

// --- Order of names ---

/// `a` comes strictly before `b`: lexicographic order of characters (of code points), a
/// proper prefix first; the order of `str`.
pub open spec fn chars_lt(a: Seq<char>, b: Seq<char>) -> bool
    decreases a.len(),
{
    if b.len() == 0 {
        false
    } else if a.len() == 0 {
        true
    } else if a[0] == b[0] {
        chars_lt(a.drop_first(), b.drop_first())
    } else {
        a[0] < b[0]
    }
}

/// No name comes before itself.
pub proof fn lemma_chars_lt_irreflexive(a: Seq<char>)
    ensures
        !chars_lt(a, a),
    decreases a.len(),
{
    if a.len() > 0 {
        lemma_chars_lt_irreflexive(a.drop_first());
    }
}

/// Of two different names, one comes before the other, and not both ways.
pub proof fn lemma_chars_lt_total(a: Seq<char>, b: Seq<char>)
    ensures
        a != b ==> (chars_lt(a, b) || chars_lt(b, a)),
        !(chars_lt(a, b) && chars_lt(b, a)),
    decreases a.len(),
{
    if a.len() > 0 && b.len() > 0 {
        if a[0] == b[0] {
            lemma_chars_lt_total(a.drop_first(), b.drop_first());
            if a.drop_first() == b.drop_first() {
                assert(a =~= seq![a[0]] + a.drop_first());
                assert(b =~= seq![b[0]] + b.drop_first());
            }
        }
    } else if a.len() == 0 && b.len() == 0 {
        assert(a =~= b);
    }
}

/// The order of names is transitive.
pub proof fn lemma_chars_lt_transitive(a: Seq<char>, b: Seq<char>, c: Seq<char>)
    requires
        chars_lt(a, b),
        chars_lt(b, c),
    ensures
        chars_lt(a, c),
    decreases a.len(),
{
    if a.len() > 0 && a[0] == b[0] && b[0] == c[0] {
        lemma_chars_lt_transitive(a.drop_first(), b.drop_first(), c.drop_first());
    }
}

/// Whether `a` comes strictly before `b` in the order of names.
pub fn str_less(a: &str, b: &str) -> (r: bool)
    ensures
        r == chars_lt(a@, b@),
{
    let na = a.unicode_len();
    let nb = b.unicode_len();
    let mut i: usize = 0;
    proof {
        assert(a@.skip(0) =~= a@);
        assert(b@.skip(0) =~= b@);
    }
    while i < na && i < nb
        invariant
            na == a@.len(),
            nb == b@.len(),
            i <= na,
            i <= nb,
            chars_lt(a@, b@) == chars_lt(a@.skip(i as int), b@.skip(i as int)),
        decreases na - i,
    {
        let ca = a.get_char(i);
        let cb = b.get_char(i);
        proof {
            assert(a@.skip(i as int)[0] == ca);
            assert(b@.skip(i as int)[0] == cb);
            assert(a@.skip(i as int).drop_first() =~= a@.skip(i + 1));
            assert(b@.skip(i as int).drop_first() =~= b@.skip(i + 1));
        }
        if ca != cb {
            return ca < cb;
        }
        i = i + 1;
    }
    i < nb
}

/// Whether the name `a` comes strictly before the name `b`.
pub fn name_less(a: &ComponentName, b: &ComponentName) -> (r: bool)
    ensures
        r == chars_lt(a@, b@),
{
    str_less(a.name.as_str(), b.name.as_str())
}

/// The names of `names` are strictly increasing.
pub open spec fn names_sorted(names: Seq<ComponentName>) -> bool {
    forall|i: int, j: int| 0 <= i < j < names.len() ==> chars_lt(names[i]@, names[j]@)
}

/// Some name of `names` is `x`.
pub open spec fn has_name(names: Seq<ComponentName>, x: Seq<char>) -> bool {
    exists|i: int| 0 <= i < names.len() && names[i]@ == x
}

/// Adds `x` at its place among names in increasing order, unless it is there already.
pub fn insert_name_sorted(v: &mut Vec<ComponentName>, x: ComponentName)
    requires
        names_sorted(old(v)@),
    ensures
        names_sorted(final(v)@),
        forall|y: Seq<char>| has_name(final(v)@, y) <==> (has_name(old(v)@, y) || y == x@),
        !has_name(old(v)@, x@) ==> final(v)@.len() == old(v)@.len() + 1,
{
    let ghost o = v@;
    let n = v.len();
    let mut p: usize = 0;
    while p < n
        invariant
            n == o.len(),
            v@ == o,
            p <= n,
            forall|i: int| 0 <= i < p ==> chars_lt(o[i]@, x@),
        ensures
            p <= n,
            v@ == o,
            forall|i: int| 0 <= i < p ==> chars_lt(o[i]@, x@),
            p < n ==> !chars_lt(o[p as int]@, x@),
        decreases n - p,
    {
        if !name_less(&v[p], &x) {
            break;
        }
        p = p + 1;
    }
    if p < n && v[p].same(&x) {
        proof {
            assert(has_name(o, x@));
        }
        return;
    }
    let ghost xv = x@;
    let ghost xx = x;
    v.insert(p, x);
    proof {
        let w = v@;
        assert(w =~= o.insert(p as int, xx));
        assert forall|i: int, j: int| 0 <= i < j < w.len() implies chars_lt(w[i]@, w[j]@) by {
            if j < p {
            } else if j == p {
            } else if i < p {
                assert(w[j] == o[j - 1]);
            } else if i == p {
                assert(w[j] == o[j - 1]);
                lemma_chars_lt_total(o[p as int]@, xv);
                if j - 1 > p {
                    lemma_chars_lt_transitive(xv, o[p as int]@, o[j - 1]@);
                }
            } else {
                assert(w[i] == o[i - 1] && w[j] == o[j - 1]);
            }
        }
        assert forall|y: Seq<char>| has_name(w, y) <==> (has_name(o, y) || y == xv) by {
            if has_name(w, y) {
                let i = choose|i: int| 0 <= i < w.len() && w[i]@ == y;
                if i < p {
                    assert(o[i]@ == y);
                } else if i > p {
                    assert(o[i - 1]@ == y);
                }
            }
            if has_name(o, y) {
                let i = choose|i: int| 0 <= i < o.len() && o[i]@ == y;
                if i < p {
                    assert(w[i]@ == y);
                } else {
                    assert(w[i + 1]@ == y);
                }
            }
            if y == xv {
                assert(w[p as int]@ == y);
            }
        }
    }
}

} // verus!
