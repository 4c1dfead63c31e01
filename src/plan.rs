use vstd::prelude::*;
use crate::bundler::{Graph, bundle_order, distinct, placed_from, deps_before, traversal_order};

verus! {

/// Why a bundle cannot be planned.
#[derive(Debug, PartialEq, Eq, Structural)]
pub enum BundleError {
    /// A dependency edge or the resolved root names no package of the graph.
    UnknownPackage,
    /// No root was resolved and no package has a binary target.
    NoBinaryPackage,
    /// The root package has no binary target.
    MissingBinary,
}

/// One piece of the output: a library wrapped in a module named `library`, or,
/// where `library` is `None`, the root binary, unwrapped.
#[derive(Debug)]
pub struct Section {
    pub library: Option<String>,
    pub src_path: String,
}

pub open spec fn opt_view(o: Option<String>) -> Option<Seq<char>> {
    match o {
        Some(s) => Some(s@),
        None => None,
    }
}

impl Section {
    pub open spec fn view(&self) -> (Option<Seq<char>>, Seq<char>) {
        (opt_view(self.library), self.src_path@)
    }
}

pub open spec fn sections_view(v: Seq<Section>) -> Seq<(Option<Seq<char>>, Seq<char>)> {
    v.map_values(|s: Section| s.view())
}

/// A package name made into an identifier: each `-` becomes `_`.
pub open spec fn sanitize(s: Seq<char>) -> Seq<char> {
    s.map_values(|c: char| if c == '-' { '_' } else { c })
}

/// Replaces each `-` of `s` by `_`.
pub fn sanitize_name(s: &str) -> (r: String)
    ensures
        r@ == sanitize(s@),
{
    let n = s.unicode_len();
    let mut r = String::new();
    let mut i: usize = 0;
    while i < n
        invariant
            n == s@.len(),
            i <= n,
            r@ == sanitize(s@.subrange(0, i as int)),
        decreases n - i,
    {
        let c = s.get_char(i);
        if c == '-' {
            proof {
                reveal_strlit("_");
            }
            r.append("_");
        } else {
            r.append(s.substring_char(i, i + 1));
        }
        assert(sanitize(s@.subrange(0, i + 1)) =~= sanitize(s@.subrange(0, i as int)) + seq![
            if c == '-' { '_' } else { c },
        ]);
        assert(r@ =~= sanitize(s@.subrange(0, i + 1)));
        i = i + 1;
    }
    assert(s@.subrange(0, n as int) =~= s@);
    r
}

/// The library sections of the packages of `o`, in order; packages without a
/// library target give none.
pub open spec fn library_sections(g: Graph, o: Seq<usize>) -> Seq<(Option<Seq<char>>, Seq<char>)>
    decreases o.len(),
{
    if o.len() == 0 {
        Seq::empty()
    } else {
        library_sections(g, o.drop_last()) + match g.packages[o.last() as int].lib {
            Some(t) => seq![(Some(sanitize(t.name@)), t.src_path@)],
            None => Seq::empty(),
        }
    }
}

/// The sections for the packages of `order`, followed by the binary of `root`.
pub fn plan_sections(g: &Graph, order: &Vec<usize>, root: usize) -> (r: Result<Vec<Section>, BundleError>)
    requires
        root < g.packages.len(),
        forall|i: int| 0 <= i < order.len() ==> #[trigger] order[i] < g.packages.len(),
    ensures
        match g.packages[root as int].bin {
            None => r == Err::<Vec<Section>, BundleError>(BundleError::MissingBinary),
            Some(t) => r is Ok && sections_view(r->Ok_0@) == library_sections(*g, order@) + seq![
                (None::<Seq<char>>, t.src_path@),
            ],
        },
{
    let mut out: Vec<Section> = Vec::new();
    let mut i: usize = 0;
    while i < order.len()
        invariant
            i <= order.len(),
            forall|j: int| 0 <= j < order.len() ==> #[trigger] order[j] < g.packages.len(),
            sections_view(out@) == library_sections(*g, order@.subrange(0, i as int)),
        decreases order.len() - i,
    {
        let ghost before = out@;
        assert(order@.subrange(0, i + 1).drop_last() =~= order@.subrange(0, i as int));
        match &g.packages[order[i]].lib {
            Some(t) => {
                let sec = Section { library: Some(sanitize_name(t.name.as_str())), src_path: t.src_path.clone() };
                out.push(sec);
                assert(sections_view(out@) =~= sections_view(before) + seq![sec.view()]);
            },
            None => {},
        }
        i = i + 1;
    }
    assert(order@.subrange(0, order.len() as int) =~= order@);
    match &g.packages[root].bin {
        None => Err(BundleError::MissingBinary),
        Some(t) => {
            let ghost before = out@;
            let sec = Section { library: None, src_path: t.src_path.clone() };
            out.push(sec);
            assert(sections_view(out@) =~= sections_view(before) + seq![sec.view()]);
            Ok(out)
        },
    }
}

/// Whether every dependency edge of `g` leads to a package of `g`.
pub fn graph_wf(g: &Graph) -> (r: bool)
    ensures
        r == g.wf(),
{
    let n = g.packages.len();
    let mut p: usize = 0;
    while p < n
        invariant
            n == g.packages.len(),
            p <= n,
            forall|p2: int, k: int| 0 <= p2 < p && 0 <= k < g.packages[p2].deps.len()
                ==> #[trigger] g.packages[p2].deps[k].package < n,
        decreases n - p,
    {
        let deps = &g.packages[p].deps;
        let mut k: usize = 0;
        while k < deps.len()
            invariant
                n == g.packages.len(),
                p < n,
                deps == g.packages[p as int].deps,
                k <= deps.len(),
                forall|p2: int, k2: int| 0 <= p2 < p && 0 <= k2 < g.packages[p2].deps.len()
                    ==> #[trigger] g.packages[p2].deps[k2].package < n,
                forall|k2: int| 0 <= k2 < k ==> #[trigger] deps[k2].package < n,
            decreases deps.len() - k,
        {
            if deps[k].package >= n {
                assert(g.packages[p as int].deps[k as int].package >= n);
                return false;
            }
            k = k + 1;
        }
        p = p + 1;
    }
    true
}

/// The first package, from index `i` on, that has a binary target.
pub open spec fn first_binary_from(g: Graph, i: int) -> Option<usize>
    decreases g.packages.len() - i,
{
    if i < 0 || i >= g.packages.len() {
        None
    } else if g.packages[i].bin is Some {
        Some(i as usize)
    } else {
        first_binary_from(g, i + 1)
    }
}

/// The root package: the resolved one where there is one, else the first
/// package with a binary target.
pub open spec fn root_of(g: Graph, resolved: Option<usize>) -> Result<usize, BundleError> {
    match resolved {
        Some(x) => if x < g.packages.len() {
            Ok(x)
        } else {
            Err(BundleError::UnknownPackage)
        },
        None => match first_binary_from(g, 0) {
            Some(p) => Ok(p),
            None => Err(BundleError::NoBinaryPackage),
        },
    }
}

proof fn lemma_first_binary_bound(g: Graph, i: int)
    requires
        0 <= i,
    ensures
        first_binary_from(g, i) matches Some(p) ==> i <= p < g.packages.len() && g.packages[p as int].bin is Some,
    decreases g.packages.len() - i,
{
    if i < g.packages.len() && !(g.packages[i].bin is Some) {
        lemma_first_binary_bound(g, i + 1);
    }
}

/// Picks the root package.
pub fn select_root(g: &Graph, resolved: Option<usize>) -> (r: Result<usize, BundleError>)
    ensures
        r == root_of(*g, resolved),
        r matches Ok(p) ==> p < g.packages.len(),
{
    proof {
        lemma_first_binary_bound(*g, 0);
    }
    match resolved {
        Some(x) => if x < g.packages.len() {
            Ok(x)
        } else {
            Err(BundleError::UnknownPackage)
        },
        None => {
            let mut i: usize = 0;
            while i < g.packages.len()
                invariant
                    i <= g.packages.len(),
                    resolved is None,
                    first_binary_from(*g, 0) == first_binary_from(*g, i as int),
                decreases g.packages.len() - i,
            {
                if g.packages[i].bin.is_some() {
                    assert(first_binary_from(*g, i as int) == Some(i));
                    return Ok(i);
                }
                i = i + 1;
            }
            Err(BundleError::NoBinaryPackage)
        },
    }
}

/// `o` is an order in which the packages that `root` needs can be emitted: each
/// once, dependencies first where the graph is acyclic, `root` last.
pub open spec fn valid_order(g: Graph, root: usize, o: Seq<usize>) -> bool {
    &&& o.len() > 0
    &&& o.last() == root
    &&& distinct(o)
    &&& forall|i: int| 0 <= i < o.len() ==> #[trigger] o[i] < g.packages.len()
    &&& forall|i: int, q: int| 0 <= i < o.len() && #[trigger] g.depends_on(o[i] as int, q) ==> placed_from(o, 0, q)
    &&& g.acyclic() ==> forall|i: int| 0 <= i < o.len() ==> #[trigger] deps_before(g, o, i)
}

/// The sections of the bundle of `g`, as a function of the graph and the
/// resolved root.
pub open spec fn plan_of(g: Graph, resolved_root: Option<usize>) -> Result<Seq<(Option<Seq<char>>, Seq<char>)>, BundleError> {
    if !g.wf() {
        Err(BundleError::UnknownPackage)
    } else {
        match root_of(g, resolved_root) {
            Err(e) => Err(e),
            Ok(root) => match g.packages[root as int].bin {
                None => Err(BundleError::MissingBinary),
                Some(t) => Ok(library_sections(g, traversal_order(g, root as int)) + seq![
                    (None::<Seq<char>>, t.src_path@),
                ]),
            },
        }
    }
}

pub open spec fn plan_view(r: Result<Vec<Section>, BundleError>) -> Result<Seq<(Option<Seq<char>>, Seq<char>)>, BundleError> {
    match r {
        Ok(v) => Ok(sections_view(v@)),
        Err(e) => Err(e),
    }
}

/// Plans the whole bundle: resolves the root, orders the packages it needs, and
/// lists the sections to emit, libraries first and the root binary last.
pub fn bundle_plan(g: &Graph, resolved_root: Option<usize>) -> (r: Result<Vec<Section>, BundleError>)
    ensures
        plan_view(r) == plan_of(*g, resolved_root),
        r is Ok ==> (root_of(*g, resolved_root) matches Ok(root) && valid_order(*g, root, traversal_order(*g, root as int))),
{
    if !graph_wf(g) {
        return Err(BundleError::UnknownPackage);
    }
    let root = match select_root(g, resolved_root) {
        Ok(p) => p,
        Err(e) => {
            return Err(e);
        },
    };
    let order = bundle_order(g, root);
    let r = plan_sections(g, &order, root);
    proof {
        if r is Ok {
            assert(valid_order(*g, root, order@));
        }
    }
    r
}

/// Planning the same graph twice gives the same sections in the same order,
/// and so the same output text.
pub proof fn lemma_plan_deterministic(
    g: Graph,
    resolved_root: Option<usize>,
    a: Result<Vec<Section>, BundleError>,
    b: Result<Vec<Section>, BundleError>,
)
    requires
        plan_view(a) == plan_of(g, resolved_root),
        plan_view(b) == plan_of(g, resolved_root),
    ensures
        plan_view(a) == plan_view(b),
{
}

/// The text of a section whose processed source is `body`.
pub open spec fn section_text(library: Option<Seq<char>>, body: Seq<char>) -> Seq<char> {
    match library {
        Some(name) => "pub mod "@ + name + " {\nuse super::*;\n"@ + body + "\n}\n"@,
        None => body,
    }
}

/// Appends to `out` the text of `section`, whose processed source is `body`.
pub fn emit_section(out: &mut String, section: &Section, body: &str)
    ensures
        final(out)@ == old(out)@ + section_text(section.view().0, body@),
{
    match &section.library {
        Some(name) => {
            out.append("pub mod ");
            out.append(name.as_str());
            out.append(" {\nuse super::*;\n");
            out.append(body);
            out.append("\n}\n");
            assert(final(out)@ =~= old(out)@ + section_text(section.view().0, body@));
        },
        None => {
            out.append(body);
        },
    }
}

} // verus!
