//! Printing the stored tree. The walk is iterative, with an explicit stack,
//! and expands each path at most once: a children list that leads back to a
//! path already printed (a cycle) cannot make it run forever. What each
//! printer returns is stated by a spec function that performs the same walk
//! over the index and the data (`tree_lines`, `json_rest`); their termination
//! is proved over the number of indexed paths not yet visited.

use vstd::prelude::*;
use vstd::string::StringExecFns;
use crate::entry::{copy_names, copy_string, opt_str_view};
use crate::index::{IndexView, Pairs};
use crate::lazy::{stored, LazyCache, Stored};
use crate::pathset::PathSet;
use crate::scheduler::has_part;
use crate::strmap::{index_of, lemma_index_of_bounds};
use crate::text::{join, join_path, sort_names, sorted_names_of};

verus! {

/// How many of the first `n` indexed paths are not yet in `visited`.
pub open spec fn unvisited(ps: Pairs, visited: Set<Seq<char>>, n: int) -> nat
    decreases n,
{
    if n <= 0 {
        0
    } else {
        unvisited(ps, visited, n - 1) + if visited.contains(ps[n - 1].0) {
            0nat
        } else {
            1nat
        }
    }
}

pub proof fn lemma_unvisited_insert(ps: Pairs, visited: Set<Seq<char>>, x: Seq<char>, n: int)
    requires
        0 <= n <= ps.len(),
    ensures
        unvisited(ps, visited.insert(x), n) <= unvisited(ps, visited, n),
        !visited.contains(x) && (exists|j: int| 0 <= j < n && ps[j].0 == x) ==> unvisited(
            ps,
            visited.insert(x),
            n,
        ) < unvisited(ps, visited, n),
    decreases n,
{
    if n > 0 {
        lemma_unvisited_insert(ps, visited, x, n - 1);
        if !visited.contains(x) && (exists|j: int| 0 <= j < n && ps[j].0 == x) {
            if ps[n - 1].0 != x {
                let j = choose|j: int| 0 <= j < n && ps[j].0 == x;
                assert(j < n - 1);
            }
        }
    }
}

/// Visiting a path marks one more indexed path when the path has an entry,
/// and never more.
pub proof fn lemma_visit_measure(ix: IndexView, d: Option<Seq<u8>>, visited: Set<Seq<char>>, p: Seq<char>)
    ensures
        unvisited(ix.offsets, visited.insert(p), ix.offsets.len() as int) <= unvisited(
            ix.offsets,
            visited,
            ix.offsets.len() as int,
        ),
        !visited.contains(p) && stored(ix, d, p) is Found ==> unvisited(
            ix.offsets,
            visited.insert(p),
            ix.offsets.len() as int,
        ) < unvisited(ix.offsets, visited, ix.offsets.len() as int),
{
    if stored(ix, d, p) is Found {
        lemma_index_of_bounds(ix.offsets, p, ix.offsets.len() as int);
        let j = index_of(ix.offsets, p, ix.offsets.len() as int);
        assert(ix.offsets[j].0 == p);
    }
    lemma_unvisited_insert(ix.offsets, visited, p, ix.offsets.len() as int);
}

/// The reset sequence that ends a colored piece of text.
pub open spec fn reset_code() -> Seq<char> {
    seq!['\x1B', '[', '0', 'm']
}

/// `p + s` followed by the reset sequence: `s` wrapped in a style.
pub open spec fn wrapped(p: Seq<char>, s: Seq<char>) -> Seq<char> {
    p + s + reset_code()
}

/// `r` is `s` as a styling call may print it: unchanged, or after a style
/// prefix without line feeds and before the reset sequence. Text that already
/// holds a reset sequence may be changed inside.
pub open spec fn styled_ok(r: Seq<char>, s: Seq<char>) -> bool {
    has_part(s, reset_code()) || r == s || exists|p: Seq<char>|
        !p.contains('\n') && r == #[trigger] wrapped(p, s)
}

/// Relies on colored's Colorize::blue and Colorize::bold and ColoredString's
/// Display: the text unchanged, or a style prefix, the text and the reset
/// sequence, depending on the environment.
#[verifier::external_body]
fn style_root(s: &str) -> (r: String)
    ensures
        styled_ok(r@, s@),
{
    colored::Colorize::bold(colored::Colorize::blue(s)).to_string()
}

/// Relies on colored's Colorize::cyan, printed as for `style_root`.
#[verifier::external_body]
fn style_branch(s: &str) -> (r: String)
    ensures
        styled_ok(r@, s@),
{
    colored::Colorize::cyan(s).to_string()
}

/// Relies on colored's Colorize::bright_blue, printed as for `style_root`.
#[verifier::external_body]
fn style_name(s: &str) -> (r: String)
    ensures
        styled_ok(r@, s@),
{
    colored::Colorize::bright_blue(s).to_string()
}

/// What `serde_json::to_string` makes of a string: a quoted JSON string literal.
pub uninterp spec fn json_quoted(s: Seq<char>) -> Seq<char>;

/// Relies on serde_json::to_string on a `str`: the string as a quoted JSON
/// string literal; it depends on the characters alone and cannot fail.
#[verifier::external_body]
fn json_string(s: &str) -> (r: String)
    ensures
        r@ == json_quoted(s@),
{
    serde_json::to_string(s).unwrap_or_default()
}

// ---------------------------------------------------------------- the tree

/// One step of the tree walk: print a line (guide prefix, branch, name), or
/// expand a path (its guide prefix and whether it is its parent's last child).
pub enum TreeStep {
    Line(Seq<char>, Seq<char>, Seq<char>),
    Expand(Seq<char>, Seq<char>, bool),
}

pub open spec fn branch_mark(last: bool) -> Seq<char> {
    if last {
        "└── "@
    } else {
        "├── "@
    }
}

/// The guide added below a path, following whether the path itself was its
/// parent's last child.
pub open spec fn guide_mark(last: bool) -> Seq<char> {
    if last {
        "    "@
    } else {
        "│   "@
    }
}

/// The steps pushed for the children `cs[i..]` of `path`: from the last child
/// down to child `i`, each child's expansion below its line, so that the
/// first child's line is on top.
pub open spec fn child_steps(path: Seq<char>, prefix: Seq<char>, last: bool, cs: Seq<Seq<char>>, i: int) -> Seq<
    TreeStep,
>
    decreases cs.len() - i,
{
    if i < 0 || i >= cs.len() {
        Seq::empty()
    } else {
        child_steps(path, prefix, last, cs, i + 1) + seq![
            TreeStep::Expand(join_path(path, cs[i]), prefix + guide_mark(last), i == cs.len() - 1),
            TreeStep::Line(prefix, branch_mark(i == cs.len() - 1), cs[i]),
        ]
    }
}

/// The lines printed from a stack of steps (top last), given the paths already
/// expanded: a path is expanded once, and only when it has a readable entry,
/// into its children in ascending order.
pub open spec fn tree_lines(ix: IndexView, d: Option<Seq<u8>>, steps: Seq<TreeStep>, visited: Set<Seq<char>>) -> Seq<
    (Seq<char>, Seq<char>, Seq<char>),
>
    decreases unvisited(ix.offsets, visited, ix.offsets.len() as int), steps.len(),
{
    if steps.len() == 0 {
        Seq::empty()
    } else {
        let rest = steps.drop_last();
        match steps.last() {
            TreeStep::Line(a, b, c) => seq![(a, b, c)] + tree_lines(ix, d, rest, visited),
            TreeStep::Expand(p, prefix, last) => {
                proof {
                    lemma_visit_measure(ix, d, visited, p);
                }
                if visited.contains(p) {
                    tree_lines(ix, d, rest, visited)
                } else {
                    match stored(ix, d, p) {
                        Stored::Found(e) => tree_lines(
                            ix,
                            d,
                            rest + child_steps(p, prefix, last, sorted_names_of(e.children), 0),
                            visited.insert(p),
                        ),
                        _ => tree_lines(ix, d, rest, visited.insert(p)),
                    }
                }
            },
        }
    }
}

/// The lines of the stored tree, below its root.
pub open spec fn tree_of(ix: IndexView, d: Option<Seq<u8>>) -> Seq<(Seq<char>, Seq<char>, Seq<char>)> {
    tree_lines(ix, d, seq![TreeStep::Expand(ix.root, Seq::empty(), true)], Set::empty())
}

/// Lines joined, each ended by a line feed.
pub open spec fn lines_text(ls: Seq<(Seq<char>, Seq<char>, Seq<char>)>) -> Seq<char>
    decreases ls.len(),
{
    if ls.len() == 0 {
        Seq::empty()
    } else {
        lines_text(ls.drop_last()) + ls.last().0 + ls.last().1 + ls.last().2 + "\n"@
    }
}

/// Lines joined as the colored printer prints them: each guide prefix as it
/// is, then the printed branch and name that `bs` and `ns` hold.
pub open spec fn styled_text(
    ls: Seq<(Seq<char>, Seq<char>, Seq<char>)>,
    bs: Seq<Seq<char>>,
    ns: Seq<Seq<char>>,
) -> Seq<char>
    decreases ls.len(),
{
    if ls.len() == 0 || bs.len() == 0 || ns.len() == 0 {
        Seq::empty()
    } else {
        styled_text(ls.drop_last(), bs.drop_last(), ns.drop_last()) + ls.last().0 + bs.last()
            + ns.last() + "\n"@
    }
}

/// Each printed branch and name is its line's, as a styling call prints it.
pub open spec fn styles_fit(
    ls: Seq<(Seq<char>, Seq<char>, Seq<char>)>,
    bs: Seq<Seq<char>>,
    ns: Seq<Seq<char>>,
) -> bool {
    &&& bs.len() == ls.len()
    &&& ns.len() == ls.len()
    &&& forall|i: int|
        0 <= i < ls.len() ==> styled_ok(#[trigger] bs[i], ls[i].1) && styled_ok(ns[i], ls[i].2)
}

enum Step {
    Line(String, String, String),
    Expand(String, String, bool),
}

spec fn step_view(s: Step) -> TreeStep {
    match s {
        Step::Line(a, b, c) => TreeStep::Line(a@, b@, c@),
        Step::Expand(p, x, l) => TreeStep::Expand(p@, x@, l),
    }
}

spec fn steps_view(v: Seq<Step>) -> Seq<TreeStep> {
    v.map_values(|s: Step| step_view(s))
}

// ---------------------------------------------------------------- JSON

/// One step of the JSON walk: print text, or print a node (its name, absent
/// for the root, its path and its indentation).
pub enum JsonStep {
    Text(Seq<char>),
    Node(Option<Seq<char>>, Seq<char>, Seq<char>),
}

/// The start of a node, up to its children array.
pub open spec fn node_open(indent: Seq<char>) -> Seq<char> {
    indent + "{\n"@ + indent + "  \"children\": "@
}

pub open spec fn name_part(name: Option<Seq<char>>, indent: Seq<char>) -> Seq<char> {
    match name {
        Some(n) => ",\n"@ + indent + "  \"name\": "@ + json_quoted(n),
        None => Seq::<char>::empty(),
    }
}

/// The end of a node, after its children array: its name, if any, and path.
pub open spec fn node_tail(name: Option<Seq<char>>, path: Seq<char>, indent: Seq<char>) -> Seq<char> {
    name_part(name, indent) + ",\n"@ + indent + "  \"path\": "@ + json_quoted(path) + "\n"@ + indent + "}"@
}

pub open spec fn separator(i: int) -> Seq<JsonStep> {
    if i > 0 {
        seq![JsonStep::Text(",\n"@)]
    } else {
        Seq::empty()
    }
}

/// The steps pushed for the children `cs[i..]` of `path`, from the last down,
/// with a separator between children and the first child on top.
pub open spec fn json_child_steps(path: Seq<char>, indent: Seq<char>, cs: Seq<Seq<char>>, i: int) -> Seq<
    JsonStep,
>
    decreases cs.len() - i,
{
    if i < 0 || i >= cs.len() {
        Seq::empty()
    } else {
        json_child_steps(path, indent, cs, i + 1) + seq![
            JsonStep::Node(Some(cs[i]), join_path(path, cs[i]), indent + "    "@),
        ] + separator(i)
    }
}

/// The text printed from a stack of JSON steps (top last), given the paths
/// already expanded. A node whose path was expanded before, or that has no
/// readable entry or no children, gets an empty children array.
pub open spec fn json_rest(ix: IndexView, d: Option<Seq<u8>>, steps: Seq<JsonStep>, visited: Set<Seq<char>>) -> Seq<
    char,
>
    decreases unvisited(ix.offsets, visited, ix.offsets.len() as int), steps.len(),
{
    if steps.len() == 0 {
        Seq::empty()
    } else {
        let rest = steps.drop_last();
        match steps.last() {
            JsonStep::Text(t) => t + json_rest(ix, d, rest, visited),
            JsonStep::Node(name, p, indent) => {
                proof {
                    lemma_visit_measure(ix, d, visited, p);
                }
                let flat = node_open(indent) + "[]"@ + node_tail(name, p, indent);
                if visited.contains(p) {
                    flat + json_rest(ix, d, rest, visited)
                } else {
                    match stored(ix, d, p) {
                        Stored::Found(e) => if e.children.len() > 0 {
                            node_open(indent) + "[\n"@ + json_rest(
                                ix,
                                d,
                                rest + seq![
                                    JsonStep::Text(
                                        "\n"@ + indent + "  ]"@ + node_tail(name, p, indent),
                                    ),
                                ] + json_child_steps(p, indent, sorted_names_of(e.children), 0),
                                visited.insert(p),
                            )
                        } else {
                            flat + json_rest(ix, d, rest, visited.insert(p))
                        },
                        _ => flat + json_rest(ix, d, rest, visited.insert(p)),
                    }
                }
            },
        }
    }
}

/// The indented JSON text of the stored tree.
pub open spec fn json_of(ix: IndexView, d: Option<Seq<u8>>) -> Seq<char> {
    json_rest(ix, d, seq![JsonStep::Node(None, ix.root, Seq::empty())], Set::empty())
}

enum JStep {
    Text(String),
    Node(Option<String>, String, String),
}

spec fn jstep_view(s: JStep) -> JsonStep {
    match s {
        JStep::Text(t) => JsonStep::Text(t@),
        JStep::Node(n, p, i) => JsonStep::Node(opt_str_view(n), p@, i@),
    }
}

spec fn jsteps_view(v: Seq<JStep>) -> Seq<JsonStep> {
    v.map_values(|s: JStep| jstep_view(s))
}

fn tail_text(name: &Option<String>, path: &String, indent: &String) -> (r: String)
    ensures
        r@ == node_tail(opt_str_view(*name), path@, indent@),
{
    let mut r = String::new();
    match name {
        Some(n) => {
            r.append(",\n");
            r.append(indent.as_str());
            r.append("  \"name\": ");
            r.append(json_string(n.as_str()).as_str());
        },
        None => {},
    }
    r.append(",\n");
    r.append(indent.as_str());
    r.append("  \"path\": ");
    r.append(json_string(path.as_str()).as_str());
    r.append("\n");
    r.append(indent.as_str());
    r.append("}");
    assert(r@ =~= node_tail(opt_str_view(*name), path@, indent@));
    r
}

/// `r` is the colored tree: the printed root, a line feed, then the lines
/// with their printed branches and names.
pub open spec fn colored_matches(
    r: Seq<char>,
    root: Seq<char>,
    ls: Seq<(Seq<char>, Seq<char>, Seq<char>)>,
    sr: Seq<char>,
    bs: Seq<Seq<char>>,
    ns: Seq<Seq<char>>,
) -> bool {
    &&& styled_ok(sr, root)
    &&& styles_fit(ls, bs, ns)
    &&& r == sr + "\n"@ + styled_text(ls, bs, ns)
}

impl<'a> LazyCache<'a> {
    /// The tree under the stored root: the root, then one line per child with
    /// its guide prefix and branch, children sorted ascending, each path
    /// expanded at most once; "(empty)" when nothing is indexed.
    pub fn build_tree_output(&mut self) -> (r: String)
        requires
            old(self).wf(),
        ensures
            final(self).wf(),
            final(self).index_view() == old(self).index_view(),
            final(self).data_view() == old(self).data_view(),
            old(self).index_view().offsets.len() == 0 ==> r@ == "(empty)\n"@,
            old(self).index_view().offsets.len() > 0 ==> r@ == old(self).index_view().root + "\n"@
                + lines_text(tree_of(old(self).index_view(), old(self).data_view())),
    {
        self.render(false)
    }

    /// As `build_tree_output`, with the root, the branches and the names
    /// each passed through a styling call.
    pub fn build_colored_tree_output(&mut self) -> (r: String)
        requires
            old(self).wf(),
        ensures
            final(self).wf(),
            final(self).index_view() == old(self).index_view(),
            final(self).data_view() == old(self).data_view(),
            old(self).index_view().offsets.len() == 0 ==> r@ == "(empty)\n"@,
            old(self).index_view().offsets.len() > 0 ==> exists|
                sr: Seq<char>,
                bs: Seq<Seq<char>>,
                ns: Seq<Seq<char>>,
            |
                #[trigger] colored_matches(
                    r@,
                    old(self).index_view().root,
                    tree_of(old(self).index_view(), old(self).data_view()),
                    sr,
                    bs,
                    ns,
                ),
    {
        self.render(true)
    }

    #[verifier::rlimit(60)]
    fn render(&mut self, colored: bool) -> (r: String)
        requires
            old(self).wf(),
        ensures
            final(self).wf(),
            final(self).index_view() == old(self).index_view(),
            final(self).data_view() == old(self).data_view(),
            old(self).index_view().offsets.len() == 0 ==> r@ == "(empty)\n"@,
            old(self).index_view().offsets.len() > 0 && !colored ==> r@ == old(self).index_view().root
                + "\n"@ + lines_text(tree_of(old(self).index_view(), old(self).data_view())),
            old(self).index_view().offsets.len() > 0 && colored ==> exists|
                sr: Seq<char>,
                bs: Seq<Seq<char>>,
                ns: Seq<Seq<char>>,
            |
                #[trigger] colored_matches(
                    r@,
                    old(self).index_view().root,
                    tree_of(old(self).index_view(), old(self).data_view()),
                    sr,
                    bs,
                    ns,
                ),
    {
        if self.is_empty() {
            return String::from_str("(empty)\n");
        }
        let ghost ix = self.index_view();
        let ghost d = self.data_view();
        let root = copy_string(self.root());
        let root_text = if colored {
            style_root(root.as_str())
        } else {
            copy_string(&root)
        };
        let ghost sr = root_text@;
        let mut out = root_text;
        out.append("\n");
        let mut visited = PathSet::new();
        let mut stack: Vec<Step> = Vec::new();
        stack.push(Step::Expand(root, String::new(), true));
        let ghost total = tree_of(ix, d);
        let ghost mut done: Seq<(Seq<char>, Seq<char>, Seq<char>)> = Seq::empty();
        let ghost mut bs: Seq<Seq<char>> = Seq::empty();
        let ghost mut ns: Seq<Seq<char>> = Seq::empty();
        assert(steps_view(stack@) =~= seq![TreeStep::Expand(ix.root, Seq::empty(), true)]);
        assert(done + tree_lines(ix, d, steps_view(stack@), visited@) =~= total);
        while stack.len() > 0
            invariant
                self.wf(),
                self.index_view() == ix,
                self.data_view() == d,
                visited.wf(),
                done + tree_lines(ix, d, steps_view(stack@), visited@) == total,
                !colored ==> out@ == ix.root + "\n"@ + lines_text(done),
                colored ==> styled_ok(sr, ix.root) && styles_fit(done, bs, ns) && out@ == sr
                    + "\n"@ + styled_text(done, bs, ns),
            decreases unvisited(ix.offsets, visited@, ix.offsets.len() as int), stack@.len(),
        {
            let ghost before = steps_view(stack@);
            let step = stack.pop().unwrap();
            let ghost rest = steps_view(stack@);
            assert(before =~= rest.push(step_view(step)));
            assert(before.drop_last() =~= rest);
            match step {
                Step::Line(prefix, branch, name) => {
                    let ghost l = (prefix@, branch@, name@);
                    let ghost out0 = out@;
                    out.append(prefix.as_str());
                    if colored {
                        let b = style_branch(branch.as_str());
                        let n = style_name(name.as_str());
                        out.append(b.as_str());
                        out.append(n.as_str());
                        out.append("\n");
                        proof {
                            let bs0 = bs;
                            let ns0 = ns;
                            bs = bs.push(b@);
                            ns = ns.push(n@);
                            let dn = done.push(l);
                            assert(dn.drop_last() =~= done);
                            assert(bs.drop_last() =~= bs0);
                            assert(ns.drop_last() =~= ns0);
                            assert(out@ =~= sr + "\n"@ + styled_text(dn, bs, ns));
                            assert forall|i: int| 0 <= i < dn.len() implies styled_ok(
                                #[trigger] bs[i],
                                dn[i].1,
                            ) && styled_ok(ns[i], dn[i].2) by {
                                if i < done.len() {
                                    assert(bs[i] == bs0[i] && ns[i] == ns0[i] && dn[i] == done[i]);
                                }
                            }
                        }
                    } else {
                        out.append(branch.as_str());
                        out.append(name.as_str());
                        out.append("\n");
                        proof {
                            let dn = done.push(l);
                            assert(dn.drop_last() =~= done);
                            assert(out@ =~= ix.root + "\n"@ + lines_text(dn));
                        }
                    }
                    proof {
                        assert(tree_lines(ix, d, before, visited@) == seq![l] + tree_lines(ix, d, rest, visited@));
                        assert(done.push(l) + tree_lines(ix, d, rest, visited@) =~= done + (seq![l]
                            + tree_lines(ix, d, rest, visited@)));
                        done = done.push(l);
                    }
                },
                Step::Expand(path, prefix, is_last) => {
                    if !visited.contains(&path) {
                        let ghost v0 = visited@;
                        visited.insert(copy_string(&path));
                        proof {
                            lemma_visit_measure(ix, d, v0, path@);
                        }
                        match self.get_entry(&path) {
                            Ok(Some(e)) => {
                                let mut names = copy_names(&e.children);
                                sort_names(&mut names);
                                let ghost cs = sorted_names_of(e@.children);
                                let guide = if is_last {
                                    "    "
                                } else {
                                    "│   "
                                };
                                let child_prefix = copy_string(&prefix).concat(guide);
                                assert(child_prefix@ == prefix@ + guide_mark(is_last));
                                let m = names.len();
                                let mut i = m;
                                assert(rest + child_steps(path@, prefix@, is_last, cs, m as int) =~= rest);
                                while i > 0
                                    invariant
                                        i <= m,
                                        m == names@.len(),
                                        names@.map_values(|c: String| c@) == cs,
                                        child_prefix@ == prefix@ + guide_mark(is_last),
                                        steps_view(stack@) == rest + child_steps(path@, prefix@, is_last, cs, i as int),
                                    decreases i,
                                {
                                    let last_child = i == m;
                                    let branch = if last_child {
                                        "└── "
                                    } else {
                                        "├── "
                                    };
                                    assert(names@[i - 1]@ == cs[i - 1]);
                                    let ghost s0 = steps_view(stack@);
                                    stack.push(
                                        Step::Expand(
                                            join(&path, &names[i - 1]),
                                            copy_string(&child_prefix),
                                            last_child,
                                        ),
                                    );
                                    stack.push(
                                        Step::Line(
                                            copy_string(&prefix),
                                            String::from_str(branch),
                                            copy_string(&names[i - 1]),
                                        ),
                                    );
                                    proof {
                                        assert(branch@ == branch_mark((i - 1) == cs.len() - 1));
                                        assert(steps_view(stack@) =~= s0 + seq![
                                            TreeStep::Expand(join_path(path@, cs[i - 1]), prefix@ + guide_mark(is_last), (i - 1) == cs.len() - 1),
                                            TreeStep::Line(prefix@, branch_mark((i - 1) == cs.len() - 1), cs[i - 1]),
                                        ]);
                                        assert(child_steps(path@, prefix@, is_last, cs, i - 1) == child_steps(path@, prefix@, is_last, cs, i as int) + seq![
                                            TreeStep::Expand(join_path(path@, cs[i - 1]), prefix@ + guide_mark(is_last), (i - 1) == cs.len() - 1),
                                            TreeStep::Line(prefix@, branch_mark((i - 1) == cs.len() - 1), cs[i - 1]),
                                        ]);
                                        assert(steps_view(stack@) =~= rest + child_steps(path@, prefix@, is_last, cs, i - 1));
                                    }
                                    i -= 1;
                                }
                                assert(tree_lines(ix, d, before, v0) == tree_lines(ix, d, rest + child_steps(path@, prefix@, is_last, cs, 0), visited@));
                            },
                            _ => {
                                assert(tree_lines(ix, d, before, v0) == tree_lines(ix, d, rest, visited@));
                            },
                        }
                    } else {
                        assert(tree_lines(ix, d, before, visited@) == tree_lines(ix, d, rest, visited@));
                    }
                },
            }
        }
        assert(done + Seq::<(Seq<char>, Seq<char>, Seq<char>)>::empty() =~= done);
        proof {
            if colored {
                assert(colored_matches(out@, ix.root, total, sr, bs, ns));
            }
        }
        out
    }

    /// The stored tree as JSON. With nothing indexed, the root node on one
    /// line: `{"children":[],"path":...}`. Otherwise the indented text of
    /// `json_of`: each node with its `children`, its `name` below the root,
    /// and its `path`, in that order, indented by two spaces per level.
    #[verifier::rlimit(60)]
    pub fn build_json_output(&mut self) -> (r: String)
        requires
            old(self).wf(),
        ensures
            final(self).wf(),
            final(self).index_view() == old(self).index_view(),
            final(self).data_view() == old(self).data_view(),
            old(self).index_view().offsets.len() == 0 ==> r@ == "{\"children\":[],\"path\":"@
                + json_quoted(old(self).index_view().root) + "}"@,
            old(self).index_view().offsets.len() > 0 ==> r@ == json_of(
                old(self).index_view(),
                old(self).data_view(),
            ),
    {
        let root = copy_string(self.root());
        if self.is_empty() {
            return String::from_str("{\"children\":[],\"path\":").concat(
                json_string(root.as_str()).as_str(),
            ).concat("}");
        }
        let ghost ix = self.index_view();
        let ghost d = self.data_view();
        let ghost total = json_of(ix, d);
        let mut out = String::new();
        let mut visited = PathSet::new();
        let mut stack: Vec<JStep> = Vec::new();
        stack.push(JStep::Node(None, root, String::new()));
        assert(jsteps_view(stack@) =~= seq![JsonStep::Node(None, ix.root, Seq::empty())]);
        assert(out@ + json_rest(ix, d, jsteps_view(stack@), visited@) =~= total);
        while stack.len() > 0
            invariant
                self.wf(),
                self.index_view() == ix,
                self.data_view() == d,
                visited.wf(),
                out@ + json_rest(ix, d, jsteps_view(stack@), visited@) == total,
            decreases unvisited(ix.offsets, visited@, ix.offsets.len() as int), stack@.len(),
        {
            let ghost before = jsteps_view(stack@);
            let ghost out0 = out@;
            let step = stack.pop().unwrap();
            let ghost rest = jsteps_view(stack@);
            assert(before =~= rest.push(jstep_view(step)));
            assert(before.drop_last() =~= rest);
            match step {
                JStep::Text(t) => {
                    out.append(t.as_str());
                    assert(out0 + json_rest(ix, d, before, visited@) =~= out@ + json_rest(ix, d, rest, visited@));
                },
                JStep::Node(name, path, indent) => {
                    let ghost nv = opt_str_view(name);
                    out.append(indent.as_str());
                    out.append("{\n");
                    out.append(indent.as_str());
                    out.append("  \"children\": ");
                    assert(out@ =~= out0 + node_open(indent@));
                    let ghost out1 = out@;
                    let ghost v0 = visited@;
                    let mut expanded = false;
                    if !visited.contains(&path) {
                        visited.insert(copy_string(&path));
                        proof {
                            lemma_visit_measure(ix, d, v0, path@);
                        }
                        match self.get_entry(&path) {
                            Ok(Some(e)) => {
                                if e.children.len() > 0 {
                                    let ghost cs = sorted_names_of(e@.children);
                                    out.append("[\n");
                                    let closing = String::from_str("\n").concat(indent.as_str()).concat("  ]").concat(
                                        tail_text(&name, &path, &indent).as_str(),
                                    );
                                    stack.push(JStep::Text(closing));
                                    let ghost base = jsteps_view(stack@);
                                    assert(base =~= rest + seq![JsonStep::Text("\n"@ + indent@ + "  ]"@ + node_tail(nv, path@, indent@))]);
                                    let mut names = copy_names(&e.children);
                                    sort_names(&mut names);
                                    let child_indent = copy_string(&indent).concat("    ");
                                    let m = names.len();
                                    let mut i = m;
                                    assert(base + json_child_steps(path@, indent@, cs, m as int) =~= base);
                                    while i > 0
                                        invariant
                                            i <= m,
                                            m == names@.len(),
                                            names@.map_values(|c: String| c@) == cs,
                                            child_indent@ == indent@ + "    "@,
                                            jsteps_view(stack@) == base + json_child_steps(path@, indent@, cs, i as int),
                                        decreases i,
                                    {
                                        assert(names@[i - 1]@ == cs[i - 1]);
                                        let ghost s0 = jsteps_view(stack@);
                                        stack.push(
                                            JStep::Node(
                                                Some(copy_string(&names[i - 1])),
                                                join(&path, &names[i - 1]),
                                                copy_string(&child_indent),
                                            ),
                                        );
                                        if i - 1 > 0 {
                                            stack.push(JStep::Text(String::from_str(",\n")));
                                        }
                                        proof {
                                            assert(jsteps_view(stack@) =~= s0 + seq![
                                                JsonStep::Node(Some(cs[i - 1]), join_path(path@, cs[i - 1]), indent@ + "    "@),
                                            ] + separator(i - 1));
                                            assert(json_child_steps(path@, indent@, cs, i - 1) == json_child_steps(path@, indent@, cs, i as int) + seq![
                                                JsonStep::Node(Some(cs[i - 1]), join_path(path@, cs[i - 1]), indent@ + "    "@),
                                            ] + separator(i - 1));
                                            assert(jsteps_view(stack@) =~= base + json_child_steps(path@, indent@, cs, i - 1));
                                        }
                                        i -= 1;
                                    }
                                    expanded = true;
                                    assert(json_rest(ix, d, before, v0) == node_open(indent@) + "[\n"@ + json_rest(ix, d, jsteps_view(stack@), visited@));
                                    assert(out@ =~= out1 + "[\n"@);
                                    assert(out0 + json_rest(ix, d, before, v0) =~= out@ + json_rest(ix, d, jsteps_view(stack@), visited@));
                                }
                            },
                            _ => {},
                        }
                    }
                    if !expanded {
                        out.append("[]");
                        let tail = tail_text(&name, &path, &indent);
                        out.append(tail.as_str());
                        proof {
                            let flat = node_open(indent@) + "[]"@ + node_tail(nv, path@, indent@);
                            assert(out@ =~= out0 + flat);
                            assert(json_rest(ix, d, before, v0) == flat + json_rest(ix, d, rest, visited@));
                            assert(out0 + json_rest(ix, d, before, v0) =~= out@ + json_rest(ix, d, rest, visited@));
                        }
                    }
                },
            }
        }
        assert(out@ + Seq::<char>::empty() =~= out@);
        out
    }
}

} // verus!
