//! URN-keyed coder registry and recursive coder resolution.
//!
//! A coder specification arrives as a tree of URNs: a composite coder names
//! its component coders as ordered children.  Resolution is depth-first —
//! every child is resolved before the parent is constructed — and fails with
//! `UnknownUrn` on the first URN, in that visit order, that neither the
//! built-in table nor the contributed table knows.
//!
//! The contributed table is installed exactly once per process in production
//! mode; a second installation is rejected as `DoubleRegistration` so the
//! caller can fail loudly.  In test mode a second installation replaces the
//! table with no residue of the prior one.

use crate::errors::HarnessError;
use crate::lex::views_of;
use crate::urns;
use vstd::prelude::*;

verus! {

/// A coder specification: a URN together with ordered child specifications.
/// Leaf (non-composite) coders have no children.
#[derive(Debug)]
pub struct CoderUrnTree {
    pub urn: String,
    pub components: Vec<CoderUrnTree>,
}

/// A resolved coder: the constructor named by the URN, applied to the
/// resolved component coders in order.
#[derive(Debug)]
pub struct CoderInstance {
    pub urn: String,
    pub components: Vec<CoderInstance>,
}

/// A URN is known if either table contains it.
pub open spec fn urn_known(b: Seq<Seq<char>>, c: Seq<Seq<char>>, u: Seq<char>) -> bool {
    b.contains(u) || c.contains(u)
}

/// Every URN in the tree is known.  Children are conjoined before the root's
/// own URN, mirroring the depth-first resolution order.
pub open spec fn tree_all_known(b: Seq<Seq<char>>, c: Seq<Seq<char>>, t: CoderUrnTree) -> bool
    decreases t, 0int,
{
    trees_all_known(b, c, t.components@) && urn_known(b, c, t.urn@)
}

pub open spec fn trees_all_known(
    b: Seq<Seq<char>>,
    c: Seq<Seq<char>>,
    ts: Seq<CoderUrnTree>,
) -> bool
    decreases ts, 1int,
{
    ts.len() == 0 || (tree_all_known(b, c, ts[0]) && trees_all_known(b, c, ts.drop_first()))
}

/// The first unknown URN in depth-first, children-before-parent visit order.
/// Meaningful only when the tree is not fully known.
pub open spec fn first_unknown(b: Seq<Seq<char>>, c: Seq<Seq<char>>, t: CoderUrnTree) -> Seq<
    char,
>
    decreases t, 0int,
{
    if !trees_all_known(b, c, t.components@) {
        first_unknown_list(b, c, t.components@)
    } else {
        t.urn@
    }
}

pub open spec fn first_unknown_list(
    b: Seq<Seq<char>>,
    c: Seq<Seq<char>>,
    ts: Seq<CoderUrnTree>,
) -> Seq<char>
    decreases ts, 1int,
{
    if ts.len() == 0 {
        Seq::empty()
    } else if !tree_all_known(b, c, ts[0]) {
        first_unknown(b, c, ts[0])
    } else {
        first_unknown_list(b, c, ts.drop_first())
    }
}

/// The instance is exactly the resolution of the tree: same URN at the root
/// and components matching the children, one for one, in order.
pub open spec fn instance_matches(i: CoderInstance, t: CoderUrnTree) -> bool
    decreases t, 0int,
{
    i.urn@ == t.urn@ && instances_match(i.components@, t.components@)
}

pub open spec fn instances_match(is: Seq<CoderInstance>, ts: Seq<CoderUrnTree>) -> bool
    decreases ts, 1int,
{
    is.len() == ts.len() && (ts.len() == 0 || (instance_matches(is[0], ts[0]) && instances_match(
        is.drop_first(),
        ts.drop_first(),
    )))
}

/// Extending a prefix of children by one more child.
proof fn lemma_all_known_take(b: Seq<Seq<char>>, c: Seq<Seq<char>>, ts: Seq<CoderUrnTree>, k: int)
    requires
        0 <= k < ts.len(),
    ensures
        trees_all_known(b, c, ts.take(k + 1)) <==> (trees_all_known(b, c, ts.take(k))
            && tree_all_known(b, c, ts[k])),
    decreases k,
{
    if k == 0 {
        assert(ts.take(1)[0] == ts[0]);
        assert(ts.take(1).drop_first() =~= Seq::<CoderUrnTree>::empty());
        assert(trees_all_known(b, c, Seq::<CoderUrnTree>::empty()));
        assert(ts.take(0).len() == 0);
        assert(trees_all_known(b, c, ts.take(0)));
        assert(ts.take(1).len() == 1);
        assert(trees_all_known(b, c, ts.take(1)) == (tree_all_known(b, c, ts.take(1)[0])
            && trees_all_known(b, c, ts.take(1).drop_first())));
    } else {
        assert(ts.take(k + 1)[0] == ts[0]);
        assert(ts.take(k + 1).drop_first() =~= ts.drop_first().take(k));
        assert(ts.take(k)[0] == ts[0]);
        assert(ts.take(k).drop_first() =~= ts.drop_first().take(k - 1));
        assert(ts.drop_first()[k - 1] == ts[k]);
        lemma_all_known_take(b, c, ts.drop_first(), k - 1);
        assert(trees_all_known(b, c, ts.take(k + 1)) == (tree_all_known(b, c, ts[0])
            && trees_all_known(b, c, ts.drop_first().take(k))));
        assert(trees_all_known(b, c, ts.take(k)) == (tree_all_known(b, c, ts[0])
            && trees_all_known(b, c, ts.drop_first().take(k - 1))));
    }
}

proof fn lemma_instances_match_take(
    is: Seq<CoderInstance>,
    ts: Seq<CoderUrnTree>,
    k: int,
)
    requires
        0 <= k < ts.len(),
        is.len() == k + 1,
        instances_match(is.take(k), ts.take(k)),
        instance_matches(is[k], ts[k]),
    ensures
        instances_match(is, ts.take(k + 1)),
    decreases k,
{
    if k == 0 {
        assert(is.take(0).len() == 0);
        assert(ts.take(1)[0] == ts[0]);
        assert(is.drop_first() =~= Seq::<CoderInstance>::empty());
        assert(ts.take(1).drop_first() =~= Seq::<CoderUrnTree>::empty());
        assert(instances_match(
            Seq::<CoderInstance>::empty(),
            Seq::<CoderUrnTree>::empty(),
        ));
        assert(instances_match(is, ts.take(1)) == (is.len() == 1 && instance_matches(
            is[0],
            ts.take(1)[0],
        ) && instances_match(is.drop_first(), ts.take(1).drop_first())));
    } else {
        assert(is.take(k)[0] == is[0]);
        assert(ts.take(k)[0] == ts[0]);
        assert(is.drop_first().take(k - 1) =~= is.take(k).drop_first());
        assert(ts.drop_first().take(k - 1) =~= ts.take(k).drop_first());
        assert(is.drop_first()[k - 1] == is[k]);
        assert(ts.drop_first()[k - 1] == ts[k]);
        assert(is.drop_first().len() == k);
        assert(instances_match(is.take(k), ts.take(k)) == (is.take(k).len() == k
            && instance_matches(is[0], ts[0]) && instances_match(
            is.drop_first().take(k - 1),
            ts.drop_first().take(k - 1),
        )));
        lemma_instances_match_take(is.drop_first(), ts.drop_first(), k - 1);
        assert(ts.take(k + 1)[0] == ts[0]);
        assert(ts.take(k + 1).drop_first() =~= ts.drop_first().take(k));
        assert(instances_match(is, ts.take(k + 1)) == (is.len() == k + 1 && instance_matches(
            is[0],
            ts[0],
        ) && instances_match(is.drop_first(), ts.drop_first().take(k))));
    }
}

/// If the first `k` children are known but child `k` is not, the whole list is
/// not known and its first unknown URN is child `k`'s.
proof fn lemma_first_unknown_at(b: Seq<Seq<char>>, c: Seq<Seq<char>>, ts: Seq<CoderUrnTree>, k: int)
    requires
        0 <= k < ts.len(),
        trees_all_known(b, c, ts.take(k)),
        !tree_all_known(b, c, ts[k]),
    ensures
        !trees_all_known(b, c, ts),
        first_unknown_list(b, c, ts) == first_unknown(b, c, ts[k]),
    decreases k,
{
    if k == 0 {
    } else {
        assert(ts.take(k)[0] == ts[0]);
        assert(ts.take(k).len() == k);
        assert(ts.take(k).drop_first() =~= ts.drop_first().take(k - 1));
        assert(ts.drop_first()[k - 1] == ts[k]);
        lemma_first_unknown_at(b, c, ts.drop_first(), k - 1);
    }
}

/// A parent coder resolves only if every one of its children resolves: an
/// unknown URN anywhere below fails the whole tree.
pub proof fn lemma_child_failure_fails_parent(
    b: Seq<Seq<char>>,
    c: Seq<Seq<char>>,
    t: CoderUrnTree,
    j: int,
)
    requires
        0 <= j < t.components@.len(),
        !tree_all_known(b, c, t.components@[j]),
    ensures
        !tree_all_known(b, c, t),
{
    lemma_some_child_unknown(b, c, t.components@, j);
}

proof fn lemma_some_child_unknown(
    b: Seq<Seq<char>>,
    c: Seq<Seq<char>>,
    ts: Seq<CoderUrnTree>,
    j: int,
)
    requires
        0 <= j < ts.len(),
        !tree_all_known(b, c, ts[j]),
    ensures
        !trees_all_known(b, c, ts),
    decreases j,
{
    if j > 0 {
        lemma_some_child_unknown(b, c, ts.drop_first(), j - 1);
        assert(ts.drop_first()[j - 1] == ts[j]);
    }
}

/// The URNs of the always-present built-in coders.
pub open spec fn spec_builtin_urns() -> Seq<Seq<char>> {
    seq![
        urns::BYTES_CODER_URN@,
        urns::STR_UTF8_CODER_URN@,
        urns::VARINT_CODER_URN@,
        urns::KV_CODER_URN@,
        urns::ITERABLE_CODER_URN@,
    ]
}

/// Process-wide, URN-keyed table of coder constructors: a preset built-in
/// partition, and a contributed partition installed once at process start.
pub struct CoderRegistry {
    builtin_urns: Vec<String>,
    contributed_urns: Option<Vec<String>>,
    test_mode: bool,
}

impl CoderRegistry {
    /// The built-in partition's URNs.
    pub closed spec fn builtins(&self) -> Seq<Seq<char>> {
        views_of(self.builtin_urns@)
    }

    /// The contributed partition's URNs; empty until a table is installed.
    pub closed spec fn contributed(&self) -> Seq<Seq<char>> {
        match self.contributed_urns {
            Some(v) => views_of(v@),
            None => Seq::empty(),
        }
    }

    /// Whether a contributed table has been installed.
    pub closed spec fn is_registered(&self) -> bool {
        self.contributed_urns is Some
    }

    /// Whether replacement of the contributed table is permitted.
    pub closed spec fn in_test_mode(&self) -> bool {
        self.test_mode
    }

    /// A fresh registry: built-ins preset, no contributed table.  Test mode
    /// permits replacing the contributed table, for isolated test cases.
    pub fn new(test_mode: bool) -> (r: Self)
        ensures
            r.builtins() == spec_builtin_urns(),
            !r.is_registered(),
            r.contributed() == Seq::<Seq<char>>::empty(),
            r.in_test_mode() == test_mode,
    {
        let mut b: Vec<String> = Vec::new();
        b.push(urns::BYTES_CODER_URN.to_owned());
        b.push(urns::STR_UTF8_CODER_URN.to_owned());
        b.push(urns::VARINT_CODER_URN.to_owned());
        b.push(urns::KV_CODER_URN.to_owned());
        b.push(urns::ITERABLE_CODER_URN.to_owned());
        let r = CoderRegistry { builtin_urns: b, contributed_urns: None, test_mode };
        proof {
            assert(r.builtins() =~= spec_builtin_urns());
        }
        r
    }

    /// Installs the contributed URN table.
    ///
    /// Exactly once per process in production mode: a second call is rejected
    /// with `DoubleRegistration` and leaves the registry unchanged, so the
    /// caller can crash loudly rather than silently shadow the first table.
    /// In test mode the new table replaces the old one with no residual state.
    pub fn register(&mut self, contributed: Vec<String>) -> (r: Result<(), HarnessError>)
        ensures
            old(self).is_registered() && !old(self).in_test_mode() ==> r
                == Result::<(), HarnessError>::Err(HarnessError::DoubleRegistration) && *final(self)
                == *old(self),
            !(old(self).is_registered() && !old(self).in_test_mode()) ==> r
                == Result::<(), HarnessError>::Ok(()) && final(self).contributed() == views_of(
                contributed@,
            ) && final(self).is_registered(),
            final(self).builtins() == old(self).builtins(),
            final(self).in_test_mode() == old(self).in_test_mode(),
    {
        if self.contributed_urns.is_some() && !self.test_mode {
            return Err(HarnessError::DoubleRegistration);
        }
        self.contributed_urns = Some(contributed);
        Ok(())
    }

    /// Whether either partition knows the URN.
    fn knows(&self, urn: &String) -> (r: bool)
        ensures
            r == urn_known(self.builtins(), self.contributed(), urn@),
    {
        if vec_contains_string(&self.builtin_urns, urn) {
            return true;
        }
        match &self.contributed_urns {
            Some(v) => vec_contains_string(v, urn),
            None => {
                assert(!self.contributed().contains(urn@));
                false
            },
        }
    }

    /// Resolves a coder specification tree, depth first.
    ///
    /// Succeeds exactly when every URN in the tree is known, producing the
    /// instance whose shape matches the tree; otherwise fails with
    /// `UnknownUrn` carrying the first unknown URN in children-before-parent
    /// visit order.
    pub fn resolve(&self, tree: &CoderUrnTree) -> (r: Result<CoderInstance, HarnessError>)
        ensures
            match r {
                Ok(inst) => tree_all_known(self.builtins(), self.contributed(), *tree)
                    && instance_matches(inst, *tree),
                Err(e) => !tree_all_known(self.builtins(), self.contributed(), *tree) && (match e {
                    HarnessError::UnknownUrn(u) => u@ == first_unknown(
                        self.builtins(),
                        self.contributed(),
                        *tree,
                    ),
                    _ => false,
                }),
            },
        decreases *tree,
    {
        let ghost b = self.builtins();
        let ghost c = self.contributed();
        let mut comps: Vec<CoderInstance> = Vec::new();
        let n = tree.components.len();
        let mut k: usize = 0;
        while k < n
            invariant
                0 <= k <= n,
                n == tree.components@.len(),
                b == self.builtins(),
                c == self.contributed(),
                comps@.len() == k,
                trees_all_known(b, c, tree.components@.take(k as int)),
                instances_match(comps@, tree.components@.take(k as int)),
            decreases n - k,
        {
            proof {
                assert(decreases_to!(*tree => tree.components));
                assert(decreases_to!(tree.components => tree.components@));
                assert(decreases_to!(tree.components@ => tree.components@[k as int]));
            }
            let child = &tree.components[k];
            match self.resolve(child) {
                Ok(inst) => {
                    let ghost prev = comps@;
                    comps.push(inst);
                    proof {
                        lemma_all_known_take(b, c, tree.components@, k as int);
                        assert(comps@.take(k as int) =~= prev);
                        assert(comps@[k as int] == inst);
                        lemma_instances_match_take(comps@, tree.components@, k as int);
                    }
                },
                Err(e) => {
                    proof {
                        lemma_first_unknown_at(b, c, tree.components@, k as int);
                        lemma_some_child_unknown(b, c, tree.components@, k as int);
                    }
                    return Err(e);
                },
            }
            k = k + 1;
        }
        proof {
            assert(tree.components@.take(n as int) =~= tree.components@);
        }
        if self.knows(&tree.urn) {
            Ok(CoderInstance { urn: tree.urn.clone(), components: comps })
        } else {
            Err(HarnessError::UnknownUrn(tree.urn.clone()))
        }
    }
}

/// Linear membership test by string view.
fn vec_contains_string(v: &Vec<String>, s: &String) -> (r: bool)
    ensures
        r == views_of(v@).contains(s@),
{
    let mut i: usize = 0;
    while i < v.len()
        invariant
            0 <= i <= v@.len(),
            forall|j: int| 0 <= j < i ==> views_of(v@)[j] != s@,
        decreases v@.len() - i,
    {
        if v[i].eq(s) {
            assert(views_of(v@)[i as int] == s@);
            return true;
        }
        i = i + 1;
    }
    assert(!views_of(v@).contains(s@));
    false
}

} // verus!
