use vstd::prelude::*;
use crate::tree::FileTree;

verus! {

/// What the walker asks the display to show, as text.
pub enum RenderDecision {
    /// Open a collapsible container with this label.
    Open(Seq<char>),
    /// Close the innermost open container.
    Close,
    /// Show a plain label.
    Label(Seq<char>),
}

/// One instruction emitted by the walker.
#[derive(Debug, PartialEq, Eq)]
pub enum RenderStep {
    Open(String),
    Close,
    Label(String),
}

impl View for RenderStep {
    type V = RenderDecision;

    open spec fn view(&self) -> RenderDecision {
        match self {
            RenderStep::Open(s) => RenderDecision::Open(s@),
            RenderStep::Close => RenderDecision::Close,
            RenderStep::Label(s) => RenderDecision::Label(s@),
        }
    }
}

/// The decisions that a list of steps stands for.
pub open spec fn steps_view(s: Seq<RenderStep>) -> Seq<RenderDecision> {
    s.map_values(|x: RenderStep| x@)
}

/// The pre-order rendering of node `i`: a directory opens a container,
/// renders its children in stored order and closes it; a leaf is a label.
/// A node that is not in the arena renders as nothing, and so does a child
/// link that does not point further down the arena.
pub open spec fn render_node(t: FileTree, i: int) -> Seq<RenderDecision>
    decreases t.len() - i, if 0 <= i < t.len() {
        t.nodes@[i].children@.len() + 1
    } else {
        0
    },
{
    if i < 0 || i >= t.len() {
        Seq::empty()
    } else if t.nodes@[i].is_branch {
        seq![RenderDecision::Open(t.nodes@[i].label@)] + render_children(t, i, 0) + seq![
            RenderDecision::Close,
        ]
    } else {
        seq![RenderDecision::Label(t.nodes@[i].label@)]
    }
}

/// The rendering of the children of node `i` from the `k`-th one on.
pub open spec fn render_children(t: FileTree, i: int, k: int) -> Seq<RenderDecision>
    decreases t.len() - i, if 0 <= i < t.len() && 0 <= k {
        t.nodes@[i].children@.len() - k
    } else {
        0
    },
{
    if 0 <= i < t.len() && 0 <= k < t.nodes@[i].children@.len() {
        let c = t.nodes@[i].children@[k] as int;
        let rest = render_children(t, i, k + 1);
        if i < c < t.len() {
            render_node(t, c) + rest
        } else {
            rest
        }
    } else {
        Seq::empty()
    }
}

impl FileTree {
    fn render_into(&self, i: usize, out: &mut Vec<RenderStep>)
        ensures
            steps_view(final(out)@) == steps_view(old(out)@) + render_node(*self, i as int),
        decreases self.len() - i,
    {
        if i >= self.nodes.len() {
            assert(steps_view(out@) =~= steps_view(out@) + Seq::<RenderDecision>::empty());
            return;
        }
        let ghost start = steps_view(out@);
        if self.nodes[i].is_branch {
            out.push(RenderStep::Open(self.nodes[i].label.clone()));
            let n = self.nodes[i].children.len();
            let mut k: usize = 0;
            assert(steps_view(out@) =~= start.push(RenderDecision::Open(self.nodes@[i as int].label@)));
            while k < n
                invariant
                    i < self.len(),
                    n == self.nodes@[i as int].children@.len(),
                    0 <= k <= n,
                    steps_view(out@) + render_children(*self, i as int, k as int) == start.push(
                        RenderDecision::Open(self.nodes@[i as int].label@),
                    ) + render_children(*self, i as int, 0),
                decreases n - k,
            {
                let c = self.nodes[i].children[k];
                let ghost before = steps_view(out@);
                if i < c && c < self.nodes.len() {
                    self.render_into(c, out);
                    assert(before + render_node(*self, c as int) + render_children(*self, i as int, k as int + 1)
                        =~= before + render_children(*self, i as int, k as int));
                } else {
                    assert(render_children(*self, i as int, k as int) == render_children(*self, i as int, k as int + 1));
                }
                k = k + 1;
            }
            assert(render_children(*self, i as int, n as int) == Seq::<RenderDecision>::empty());
            assert(steps_view(out@) =~= steps_view(out@) + render_children(*self, i as int, n as int));
            let ghost mid = steps_view(out@);
            out.push(RenderStep::Close);
            assert(steps_view(out@) =~= mid.push(RenderDecision::Close));
            assert(steps_view(out@) =~= start + render_node(*self, i as int));
        } else {
            out.push(RenderStep::Label(self.nodes[i].label.clone()));
            assert(steps_view(out@) =~= start + render_node(*self, i as int));
        }
    }

    /// Walks the tree from the root in pre-order and lists the render
    /// steps. The walk only reads the tree, so it may run every frame.
    pub fn render(&self) -> (r: Vec<RenderStep>)
        ensures
            steps_view(r@) == render_node(*self, 0),
    {
        let mut out: Vec<RenderStep> = Vec::new();
        self.render_into(0, &mut out);
        assert(steps_view(Seq::<RenderStep>::empty()) =~= Seq::<RenderDecision>::empty());
        assert(steps_view(out@) =~= render_node(*self, 0));
        out
    }
}

/// Walking an unchanged tree twice gives the same steps both times.
pub proof fn lemma_render_repeatable(t: FileTree, r1: Seq<RenderStep>, r2: Seq<RenderStep>)
    requires
        steps_view(r1) == render_node(t, 0),
        steps_view(r2) == render_node(t, 0),
    ensures
        steps_view(r1) == steps_view(r2),
{
}

} // verus!
