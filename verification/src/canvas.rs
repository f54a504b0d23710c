//! The canvas: which plan is on screen, what is selected, and the edits a user
//! makes there.
//!
//! An edit goes to the plan on screen, wherever it is nested, and is refused
//! where it would touch what has been settled.
use crate::graph::{self, ArchitectGraph, ArchitectNode, EdgeCondition, EdgeId, NodeId, Position};
use crate::model::{ConditionModel, GraphModel, NodeModel};
use crate::mutate::{GraphMutationError, RefusalModel};
use crate::path::NodePath;
use crate::problems::{GraphProblem, ProblemModel};
use crate::run::MAX_PLAN_DEPTH;
use crate::text;
use vstd::prelude::*;

verus! {

/// How many things that happened are remembered.
pub const MAX_ACTIVITY_ENTRIES: usize = 100;

/// What is selected on the canvas.
#[derive(Debug, PartialEq, Eq)]
pub enum Selection {
    Node(NodeId),
    Edge(EdgeId),
}

/// What is selected on the canvas.
#[verifier::ext_equal]
pub enum SelectionModel {
    Node(Seq<char>),
    Edge(Seq<char>),
}

impl View for Selection {
    type V = SelectionModel;

    open spec fn view(&self) -> SelectionModel {
        match *self {
            Selection::Node(id) => SelectionModel::Node(id@),
            Selection::Edge(id) => SelectionModel::Edge(id@),
        }
    }
}

impl Clone for Selection {
    fn clone(&self) -> (res: Self)
        ensures
            res@ == self@,
    {
        match self {
            Selection::Node(id) => Selection::Node(id.clone()),
            Selection::Edge(id) => Selection::Edge(id.clone()),
        }
    }
}

/// Something selected or nothing, as a mathematical value.
pub open spec fn selection_value(selection: Option<Selection>) -> Option<SelectionModel> {
    match selection {
        Some(s) => Some(s@),
        None => None,
    }
}

/// An id or none, as a mathematical value.
pub open spec fn id_value(id: Option<NodeId>) -> Option<Seq<char>> {
    match id {
        Some(one) => Some(one@),
        None => None,
    }
}

/// Which inspector concern is showing.
#[derive(Clone, Copy, Debug, PartialEq, Eq, Structural)]
pub enum InspectorTab {
    Details,
    Chat,
    Subplan,
}

/// Something that happened to a plan.
#[derive(Debug)]
pub struct ArchitectActivityEntry {
    pub path: Option<NodePath>,
    pub message: String,
}

/// Something that happened to a plan.
#[verifier::ext_equal]
pub struct ActivityModel {
    pub path: Option<Seq<Seq<char>>>,
    pub message: Seq<char>,
}

impl View for ArchitectActivityEntry {
    type V = ActivityModel;

    open spec fn view(&self) -> ActivityModel {
        ActivityModel {
            path: match self.path {
                Some(path) => Some(path@),
                None => None,
            },
            message: self.message@,
        }
    }
}

/// What the pointer is doing.
#[derive(Debug, PartialEq, Eq)]
pub enum Interaction {
    Idle,
    /// Dragging the canvas itself.
    Panning,
    /// Dragging a node.
    DraggingNode(NodeId),
    /// Dragging a new connection out of a node's handle.
    Connecting(NodeId),
}

/// What the pointer is doing.
#[verifier::ext_equal]
pub enum InteractionModel {
    Idle,
    Panning,
    DraggingNode(Seq<char>),
    Connecting(Seq<char>),
}

impl View for Interaction {
    type V = InteractionModel;

    open spec fn view(&self) -> InteractionModel {
        match *self {
            Interaction::Idle => InteractionModel::Idle,
            Interaction::Panning => InteractionModel::Panning,
            Interaction::DraggingNode(id) => InteractionModel::DraggingNode(id@),
            Interaction::Connecting(id) => InteractionModel::Connecting(id@),
        }
    }
}

impl Interaction {
    /// Whether the pointer is doing nothing.
    pub fn is_idle(&self) -> (res: bool)
        ensures
            res == (self@ == InteractionModel::Idle),
    {
        matches!(self, Interaction::Idle)
    }
}

/// What the canvas shows.
pub struct Canvas {
    /// Which plan the canvas is showing. Empty is the top-level plan; each id
    /// appended is a step whose own plan has been opened.
    pub focus: NodePath,
    pub selection: Option<Selection>,
    /// The step the inspector is about.
    pub inspected: Option<NodeId>,
    pub interaction: Interaction,
    pub hovered_node: Option<NodeId>,
    /// Steps showing their sub-plan inside themselves.
    pub expanded: Vec<NodeId>,
    pub inspector_tab: InspectorTab,
    pub outline_drawer_open: bool,
    pub inspector_drawer_open: bool,
    pub plan_conversation_open: bool,
    pub activity: Vec<ArchitectActivityEntry>,
}

/// What the canvas shows.
#[verifier::ext_equal]
pub struct CanvasModel {
    pub focus: Seq<Seq<char>>,
    pub selection: Option<SelectionModel>,
    pub inspected: Option<Seq<char>>,
    pub interaction: InteractionModel,
    pub hovered_node: Option<Seq<char>>,
    pub expanded: Seq<Seq<char>>,
    pub inspector_tab: InspectorTab,
    pub outline_drawer_open: bool,
    pub inspector_drawer_open: bool,
    pub plan_conversation_open: bool,
    pub activity: Seq<ActivityModel>,
}

impl View for Canvas {
    type V = CanvasModel;

    open spec fn view(&self) -> CanvasModel {
        CanvasModel {
            focus: self.focus@,
            selection: selection_value(self.selection),
            inspected: id_value(self.inspected),
            interaction: self.interaction@,
            hovered_node: id_value(self.hovered_node),
            expanded: graph::ids(self.expanded@),
            inspector_tab: self.inspector_tab,
            outline_drawer_open: self.outline_drawer_open,
            inspector_drawer_open: self.inspector_drawer_open,
            plan_conversation_open: self.plan_conversation_open,
            activity: self.activity@.map_values(|a: ArchitectActivityEntry| a@),
        }
    }
}

/// What happened, with one thing more; the oldest are forgotten.
pub open spec fn remembered(activity: Seq<ActivityModel>, entry: ActivityModel) -> Seq<
    ActivityModel,
> {
    if activity.len() >= MAX_ACTIVITY_ENTRIES {
        activity.skip(activity.len() + 1 - MAX_ACTIVITY_ENTRIES).push(entry)
    } else {
        activity.push(entry)
    }
}

/// What the user is told of a refused edit.
pub open spec fn refused_notice(refusal: RefusalModel) -> Seq<char> {
    "That change was refused: "@ + refusal.sentence()
}

/// What the user is told of an edit that may have been refused.
pub open spec fn edit_notice(refusal: Option<RefusalModel>) -> Option<Seq<char>> {
    match refusal {
        Some(r) => Some(refused_notice(r)),
        None => None,
    }
}

/// A notice or none, as a mathematical value.
pub open spec fn notice_value(notice: Option<String>) -> Option<Seq<char>> {
    match notice {
        Some(n) => Some(n@),
        None => None,
    }
}

impl CanvasModel {
    /// A canvas that shows the top-level plan, with nothing selected.
    pub open spec fn fresh() -> CanvasModel {
        CanvasModel {
            focus: Seq::empty(),
            selection: None,
            inspected: None,
            interaction: InteractionModel::Idle,
            hovered_node: None,
            expanded: Seq::empty(),
            inspector_tab: InspectorTab::Details,
            outline_drawer_open: false,
            inspector_drawer_open: false,
            plan_conversation_open: false,
            activity: Seq::empty(),
        }
    }

    /// The canvas with one more thing that happened.
    pub open spec fn noted(self, path: Option<Seq<Seq<char>>>, message: Seq<char>) -> CanvasModel {
        CanvasModel {
            activity: remembered(self.activity, ActivityModel { path, message }),
            ..self
        }
    }

    /// The canvas with something selected. The inspector follows the selected
    /// step, where it is on screen.
    pub open spec fn selecting(
        self,
        selection: Option<SelectionModel>,
        shown: Option<GraphModel>,
    ) -> CanvasModel {
        let wanted = match selection {
            Some(SelectionModel::Node(id)) => Some(id),
            _ => None,
        };
        CanvasModel {
            selection,
            inspected: if self.inspected == wanted {
                self.inspected
            } else {
                match (wanted, shown) {
                    (Some(id), Some(plan)) => if plan.has_node(id) {
                        Some(id)
                    } else {
                        None
                    },
                    _ => None,
                }
            },
            ..self
        }
    }

    /// The canvas showing another plan, with nothing selected.
    pub open spec fn moved_to(self, focus: Seq<Seq<char>>) -> CanvasModel {
        CanvasModel {
            focus,
            selection: None,
            inspected: None,
            interaction: InteractionModel::Idle,
            hovered_node: None,
            ..self
        }
    }
}

fn refusal_text(error: &GraphMutationError) -> (res: String)
    ensures
        res@ == refused_notice(error@),
{
    text::cat2("That change was refused: ", error.to_text().as_str())
}

/// What a user changes about a step in the inspector.
pub enum NodeEdit {
    Title(String),
    Goal(String),
    Capture(String),
    TogglePinned,
    AddRule(String),
    RemoveRule(usize),
    Place(Position),
}

impl NodeEdit {
    /// The step after the edit. A blank rule is not added, and a rule that is not
    /// there is not removed.
    pub open spec fn applied(self, node: NodeModel) -> NodeModel {
        match self {
            NodeEdit::Title(title) => NodeModel { title: title@, ..node },
            NodeEdit::Goal(goal) => NodeModel { intent: goal@, ..node },
            NodeEdit::Capture(capture) => NodeModel { capture: capture@, ..node },
            NodeEdit::TogglePinned => NodeModel { pinned: !node.pinned, ..node },
            NodeEdit::AddRule(rule) => if text::is_blank(rule@) {
                node
            } else {
                NodeModel { rules: node.rules.push(text::trimmed(rule@)), ..node }
            },
            NodeEdit::RemoveRule(index) => if (index as int) < node.rules.len() {
                NodeModel { rules: node.rules.remove(index as int), ..node }
            } else {
                node
            },
            NodeEdit::Place(position) => NodeModel { position: Some(position), ..node },
        }
    }
}

fn apply_edit(node: &mut ArchitectNode, edit: NodeEdit)
    ensures
        final(node)@ == edit.applied(old(node)@),
{
    let ghost before = *node;
    match edit {
        NodeEdit::Title(title) => {
            node.title = title;
        },
        NodeEdit::Goal(goal) => {
            node.intent = goal;
        },
        NodeEdit::Capture(capture) => {
            node.capture = capture;
        },
        NodeEdit::TogglePinned => {
            node.pinned = !node.pinned;
        },
        NodeEdit::AddRule(rule) => {
            if !text::blank(rule.as_str()) {
                let tidy = text::trim(rule.as_str()).to_owned();
                node.rules.push(tidy);
                proof {
                    assert(node@.rules =~= before@.rules.push(text::trimmed(rule@)));
                }
            }
        },
        NodeEdit::RemoveRule(index) => {
            if index < node.rules.len() {
                node.rules.remove(index);
                proof {
                    assert(node@.rules =~= before@.rules.remove(index as int));
                }
            }
        },
        NodeEdit::Place(position) => {
            node.position = Some(position);
        },
    }
}

impl GraphModel {
    /// The plan with every step locked or unlocked, here and in every nested plan.
    pub open spec fn with_locks(self, locked: bool) -> GraphModel
        decreases self,
    {
        GraphModel {
            nodes: Seq::new(
                self.nodes.len(),
                |i: int|
                    if 0 <= i < self.nodes.len() {
                        NodeModel {
                            locked,
                            subplan: match self.nodes[i].subplan {
                                Some(g) => Some(Box::new(g.with_locks(locked))),
                                None => None,
                            },
                            ..self.nodes[i]
                        }
                    } else {
                        arbitrary()
                    },
            ),
            edges: self.edges,
        }
    }
}

impl ArchitectGraph {
    /// Locks or unlocks everything, descending into nested plans so that a parent
    /// is never left locked over steps that are not.
    pub fn set_locks(&mut self, locked: bool)
        ensures
            final(self)@ == old(self)@.with_locks(locked),
        decreases *old(self),
    {
        let ghost before = *self;
        proof {
            before.lemma_view();
        }
        let mut k: usize = 0;
        while k < self.nodes.len()
            invariant
                k <= self.nodes@.len(),
                before == *old(self),
                self.nodes@.len() == before.nodes@.len(),
                self.edges == before.edges,
                before@.nodes.len() == before.nodes@.len(),
                forall|i: int|
                    0 <= i < k ==> (#[trigger] self.nodes@[i])@ == before@.with_locks(
                        locked,
                    ).nodes[i],
                forall|i: int|
                    k <= i < self.nodes@.len() ==> #[trigger] self.nodes@[i] == before.nodes@[i],
            decreases self.nodes@.len() - k,
        {
            proof {
                before.lemma_view();
                assert(before@.nodes[k as int] == before.nodes@[k as int]@);
            }
            self.nodes[k].locked = locked;
            if let Some(subplan) = &mut self.nodes[k].subplan {
                subplan.set_locks(locked);
            }
            k += 1;
        }
        proof {
            self.lemma_view();
            assert(self@.nodes =~= before@.with_locks(locked).nodes);
            assert(self@.edges =~= before@.edges);
        }
    }
}

/// Locking everything leaves a plan settled at every depth.
pub proof fn law_locking_everything_settles_a_plan(plan: GraphModel)
    requires
        plan.nodes.len() > 0,
    ensures
        plan.with_locks(true).fully_locked_deeply(),
    decreases plan,
{
    let after = plan.with_locks(true);
    assert forall|i: int| 0 <= i < after.nodes.len() implies (#[trigger] after.nodes[i]).locked
        && match after.nodes[i].subplan {
        Some(g) => g.nodes.len() == 0 || g.fully_locked_deeply(),
        None => true,
    } by {
        if let Some(g) = plan.nodes[i].subplan {
            if g.nodes.len() > 0 {
                law_locking_everything_settles_a_plan(*g);
            }
        }
    }
}

/// What the user sees first when looking at what is wrong: the step or the
/// connection it is about.
pub open spec fn about(problem: ProblemModel) -> SelectionModel {
    match problem {
        ProblemModel::DuplicateNode(id) => SelectionModel::Node(id),
        ProblemModel::Unreachable(id) => SelectionModel::Node(id),
        ProblemModel::Unlocked(id) => SelectionModel::Node(id),
        ProblemModel::InSubplan { node, problem } => SelectionModel::Node(node),
        ProblemModel::DanglingEdge { edge, missing } => SelectionModel::Edge(edge),
    }
}

/// The step or the connection a problem is about.
pub fn problem_selection(problem: &GraphProblem) -> (res: Selection)
    ensures
        res@ == about(problem@),
{
    match problem {
        GraphProblem::DuplicateNode(id) => Selection::Node(id.clone()),
        GraphProblem::Unreachable(id) => Selection::Node(id.clone()),
        GraphProblem::Unlocked(id) => Selection::Node(id.clone()),
        GraphProblem::InSubplan { node, problem } => Selection::Node(node.clone()),
        GraphProblem::DanglingEdge { edge, missing } => Selection::Edge(edge.clone()),
    }
}

/// What a key asks of the canvas.
#[derive(Clone, Copy, Debug, PartialEq, Eq, Structural)]
pub enum KeyAction {
    DeleteSelection,
    SelectNext,
    SelectPrevious,
    OpenInspector,
    CloseInspector,
    CloseOutline,
    ClosePlanConversation,
    ClearSelection,
    DrillOut,
    Nothing,
}

impl CanvasModel {
    /// What a key asks for. Escape works outwards without leaving the workspace:
    /// it closes what is open, then drops the selection, then leaves a nested
    /// plan.
    pub open spec fn key_means(self, key: Seq<char>) -> KeyAction {
        if key == "delete"@ || key == "backspace"@ {
            KeyAction::DeleteSelection
        } else if key == "down"@ || key == "right"@ {
            KeyAction::SelectNext
        } else if key == "up"@ || key == "left"@ {
            KeyAction::SelectPrevious
        } else if key == "enter"@ {
            if self.selection is Some {
                KeyAction::OpenInspector
            } else {
                KeyAction::Nothing
            }
        } else if key == "escape"@ {
            if self.inspector_drawer_open {
                KeyAction::CloseInspector
            } else if self.outline_drawer_open {
                KeyAction::CloseOutline
            } else if self.plan_conversation_open {
                KeyAction::ClosePlanConversation
            } else if self.selection is Some {
                KeyAction::ClearSelection
            } else {
                KeyAction::DrillOut
            }
        } else {
            KeyAction::Nothing
        }
    }

    /// The step selected beside the selected one in the order steps run, or at the
    /// end of it where none is selected.
    pub open spec fn adjacent(self, order: Seq<Seq<char>>, forward: bool) -> Option<Seq<char>> {
        if order.len() == 0 {
            None
        } else {
            let at = match self.selection {
                Some(SelectionModel::Node(id)) => first_place(order, id),
                _ => None,
            };
            Some(
                order[match at {
                    Some(i) => if forward {
                        if i + 1 < order.len() {
                            i + 1
                        } else {
                            order.len() - 1
                        }
                    } else if i > 0 {
                        i - 1
                    } else {
                        0
                    },
                    None => if forward {
                        0
                    } else {
                        order.len() - 1
                    },
                }],
            )
        }
    }
}

impl CanvasModel {
    /// The canvas with the step selected beside the selected one.
    pub open spec fn stepped(self, root: GraphModel, forward: bool) -> CanvasModel {
        match root.graph_at(self.focus) {
            Some(plan) => match self.adjacent(plan.order_ids(), forward) {
                Some(id) => self.selecting(Some(SelectionModel::Node(id)), Some(plan)),
                None => self,
            },
            None => self,
        }
    }

    /// The canvas one level further out, with the step just left selected.
    pub open spec fn drilled_out(self, root: GraphModel) -> CanvasModel {
        if self.focus.len() > 0 {
            let focus = self.focus.drop_last();
            (CanvasModel {
                focus,
                interaction: InteractionModel::Idle,
                hovered_node: None,
                ..self
            }).selecting(Some(SelectionModel::Node(self.focus.last())), root.graph_at(focus))
        } else {
            self
        }
    }
}

/// Where an id first stands in a list.
pub open spec fn first_place(list: Seq<Seq<char>>, id: Seq<char>) -> Option<int>
    decreases list.len(),
{
    if list.len() == 0 {
        None
    } else {
        match first_place(list.drop_last(), id) {
            Some(i) => Some(i),
            None => if list.last() == id {
                Some(list.len() - 1)
            } else {
                None
            },
        }
    }
}

fn place_of(list: &Vec<NodeId>, id: &NodeId) -> (res: Option<usize>)
    ensures
        match res {
            Some(i) => first_place(graph::ids(list@), id@) == Some(i as int) && i < list@.len(),
            None => first_place(graph::ids(list@), id@) is None,
        },
{
    let ghost all = graph::ids(list@);
    let mut found: Option<usize> = None;
    for k in 0..list.len()
        invariant
            all == graph::ids(list@),
            match found {
                Some(i) => first_place(all.take(k as int), id@) == Some(i as int) && i
                    < list@.len(),
                None => first_place(all.take(k as int), id@) is None,
            },
    {
        proof {
            assert(all.take(k + 1).drop_last() =~= all.take(k as int));
            assert(all.take(k + 1).last() == list@[k as int]@);
        }
        if found.is_none() && list[k].same(id) {
            found = Some(k);
        }
    }
    proof {
        assert(all.take(all.len() as int) =~= all);
    }
    found
}

impl Canvas {
    /// A canvas that shows the top-level plan, with nothing selected.
    pub fn new() -> (res: Self)
        ensures
            res@ == CanvasModel::fresh(),
    {
        let res = Canvas {
            focus: NodePath::default(),
            selection: None,
            inspected: None,
            interaction: Interaction::Idle,
            hovered_node: None,
            expanded: Vec::new(),
            inspector_tab: InspectorTab::Details,
            outline_drawer_open: false,
            inspector_drawer_open: false,
            plan_conversation_open: false,
            activity: Vec::new(),
        };
        proof {
            assert(res@ =~= CanvasModel::fresh());
        }
        res
    }

    /// Shows the top-level plan of another conversation; one that shows it already
    /// stays as it is.
    pub fn replace_thread(&mut self, same_thread: bool)
        ensures
            final(self)@ == (if same_thread {
                old(self)@
            } else {
                CanvasModel::fresh()
            }),
    {
        if !same_thread {
            *self = Canvas::new();
        }
    }

    /// The plan on screen, which is the top-level one until a step has been opened.
    pub fn shown<'a>(&self, root: &'a ArchitectGraph) -> (res: Option<&'a ArchitectGraph>)
        ensures
            graph::plan_value(res) == root@.graph_at(self@.focus),
    {
        root.graph_at(&self.focus)
    }

    /// Remembers something that happened.
    pub fn record_activity(&mut self, path: Option<NodePath>, message: &str)
        ensures
            final(self)@ == old(self)@.noted(
                match path {
                    Some(p) => Some(p@),
                    None => None,
                },
                message@,
            ),
    {
        let ghost before = *self;
        let ghost all = before@.activity;
        let count: usize = self.activity.len();
        if count >= MAX_ACTIVITY_ENTRIES {
            let drop_count: usize = count - (MAX_ACTIVITY_ENTRIES - 1);
            let mut kept: Vec<ArchitectActivityEntry> = self.activity.split_off(drop_count);
            std::mem::swap(&mut self.activity, &mut kept);
        }
        let entry = ArchitectActivityEntry { path, message: message.to_owned() };
        let ghost added = entry@;
        self.activity.push(entry);
        proof {
            assert(self@.activity =~= remembered(all, added));
        }
    }

    /// Selects something, or nothing.
    pub fn set_selection(&mut self, selection: Option<Selection>, root: &ArchitectGraph)
        ensures
            final(self)@ == old(self)@.selecting(
                selection_value(selection),
                root@.graph_at(old(self)@.focus),
            ),
    {
        let wanted: Option<NodeId> = match &selection {
            Some(Selection::Node(id)) => Some(id.clone()),
            _ => None,
        };
        let unchanged = match (&self.inspected, &wanted) {
            (Some(a), Some(b)) => a.same(b),
            (None, None) => true,
            _ => false,
        };
        if !unchanged {
            let mut found: Option<NodeId> = None;
            if let Some(id) = wanted {
                if let Some(plan) = root.graph_at(&self.focus) {
                    proof {
                        plan@.lemma_node(id@);
                    }
                    if plan.node(&id).is_some() {
                        found = Some(id);
                    }
                }
            }
            self.inspected = found;
        }
        self.selection = selection;
    }

    /// What a key asks for.
    pub fn key_action(&self, key: &str) -> (res: KeyAction)
        ensures
            res == self@.key_means(key@),
    {
        if text::same(key, "delete") || text::same(key, "backspace") {
            KeyAction::DeleteSelection
        } else if text::same(key, "down") || text::same(key, "right") {
            KeyAction::SelectNext
        } else if text::same(key, "up") || text::same(key, "left") {
            KeyAction::SelectPrevious
        } else if text::same(key, "enter") {
            if self.selection.is_some() {
                KeyAction::OpenInspector
            } else {
                KeyAction::Nothing
            }
        } else if text::same(key, "escape") {
            if self.inspector_drawer_open {
                KeyAction::CloseInspector
            } else if self.outline_drawer_open {
                KeyAction::CloseOutline
            } else if self.plan_conversation_open {
                KeyAction::ClosePlanConversation
            } else if self.selection.is_some() {
                KeyAction::ClearSelection
            } else {
                KeyAction::DrillOut
            }
        } else {
            KeyAction::Nothing
        }
    }

    /// Selects the step beside the selected one in the order steps run.
    pub fn select_adjacent_step(&mut self, forward: bool, root: &ArchitectGraph)
        ensures
            final(self)@ == old(self)@.stepped(root@, forward),
    {
        if let Some(plan) = root.graph_at(&self.focus) {
            let order = plan.execution_order();
            proof {
                assert(graph::ids(order@).len() == order@.len());
            }
            if order.len() == 0 {
                return;
            }
            let at: Option<usize> = match &self.selection {
                Some(Selection::Node(id)) => place_of(&order, id),
                _ => None,
            };
            let last: usize = order.len() - 1;
            let index: usize = match at {
                Some(i) => if forward {
                    if i < last {
                        i + 1
                    } else {
                        last
                    }
                } else if i > 0 {
                    i - 1
                } else {
                    0
                },
                None => if forward {
                    0
                } else {
                    last
                },
            };
            proof {
                assert(graph::ids(order@)[index as int] == order@[index as int]@);
            }
            let id = order[index].clone();
            self.set_selection(Some(Selection::Node(id)), root);
        }
    }

    /// Opens a step's own plan, giving it an empty one if it has none yet. Hands
    /// back what the user is told, where there is something to tell.
    ///
    /// A locked step is settled, and giving it a plan would reopen it by the back
    /// door. Looking inside one it already has is fine.
    pub fn drill_into(&mut self, root: &mut ArchitectGraph, id: NodeId) -> (res: Option<String>)
        ensures
            ({
                let focus = old(self)@.focus;
                let node = match old(root)@.graph_at(focus) {
                    Some(plan) => plan.node(id@),
                    None => None,
                };
                let nested = node matches Some(n) && n.nested() is Some;
                let locked = node matches Some(n) && n.locked;
                if focus.len() >= MAX_PLAN_DEPTH {
                    &&& final(self)@ == old(self)@
                    &&& final(root)@ == old(root)@
                    &&& notice_value(res) == Some(
                        "Plans cannot nest more than "@ + text::decimal(MAX_PLAN_DEPTH as nat)
                            + " deep. Flatten this part of the plan instead."@,
                    )
                } else if !nested && locked {
                    &&& final(self)@ == old(self)@
                    &&& final(root)@ == old(root)@
                    &&& notice_value(res) == Some(
                        "This step is locked. Unlock it before breaking it into steps."@,
                    )
                } else if nested {
                    &&& final(self)@ == old(self)@.moved_to(focus.push(id@))
                    &&& final(root)@ == old(root)@
                    &&& res is None
                } else {
                    &&& final(self)@ == old(self)@.noted(
                        Some(focus.push(id@)),
                        "Created a nested plan"@,
                    ).moved_to(focus.push(id@))
                    &&& notice_value(res) == edit_notice(old(root)@.plan_refusal(focus))
                    &&& final(root)@ == (match old(root)@.plan_refusal(focus) {
                        Some(_) => old(root)@,
                        None => old(root)@.with_plan_at(
                            focus,
                            with_nested_plan(old(root)@.plan_at(focus)->0, id@),
                        ),
                    })
                }
            }),
    {
        if self.focus.depth() >= MAX_PLAN_DEPTH {
            return Some(
                text::cat3(
                    "Plans cannot nest more than ",
                    text::number(MAX_PLAN_DEPTH as u128).as_str(),
                    " deep. Flatten this part of the plan instead.",
                ),
            );
        }
        let mut locked = false;
        let mut nested = false;
        if let Some(plan) = root.graph_at(&self.focus) {
            if let Some(node) = plan.node(&id) {
                locked = node.locked;
                nested = node.has_subplan();
            }
        }
        if !nested && locked {
            return Some(
                "This step is locked. Unlock it before breaking it into steps.".to_owned(),
            );
        }
        let mut notice: Option<String> = None;
        let ghost before = *self;
        let path = self.focus.child(id.clone());
        if !nested {
            match root.mutate_graph_at(&self.focus) {
                Ok(plan) => {
                    open_nested(plan, &id);
                },
                Err(error) => {
                    notice = Some(refusal_text(&error));
                },
            }
            self.record_activity(Some(path.clone()), "Created a nested plan");
        }
        self.focus = path;
        self.selection = None;
        self.inspected = None;
        self.interaction = Interaction::Idle;
        self.hovered_node = None;
        notice
    }

    /// Goes back out to the plan containing the one being shown. The step just
    /// left is selected, so leaving does not lose your place.
    pub fn drill_out(&mut self, root: &ArchitectGraph) -> (res: bool)
        ensures
            res == (old(self)@.focus.len() > 0),
            final(self)@ == old(self)@.drilled_out(root@),
    {
        let ghost before = self@.focus;
        match self.focus.0.pop() {
            Some(left) => {
                proof {
                    assert(self.focus@ =~= before.drop_last());
                }
                self.interaction = Interaction::Idle;
                self.hovered_node = None;
                self.set_selection(Some(Selection::Node(left)), root);
                true
            },
            None => false,
        }
    }

    /// Jumps straight to a level from the breadcrumb.
    pub fn focus_depth(&mut self, depth: usize)
        ensures
            final(self)@ == (if depth >= old(self)@.focus.len() {
                old(self)@
            } else {
                old(self)@.moved_to(old(self)@.focus.take(depth as int))
            }),
    {
        if depth >= self.focus.depth() {
            return;
        }
        let ghost before = self@.focus;
        self.focus.0.truncate(depth);
        proof {
            assert(self.focus@ =~= before.take(depth as int));
        }
        self.selection = None;
        self.inspected = None;
        self.interaction = Interaction::Idle;
        self.hovered_node = None;
    }

    /// Opens the conversation that owns the plan.
    pub fn open_plan_conversation(&mut self)
        ensures
            final(self)@ == (CanvasModel {
                plan_conversation_open: true,
                inspector_drawer_open: true,
                ..old(self)@
            }).noted(None, "Opened the overall plan conversation"@),
    {
        self.plan_conversation_open = true;
        self.inspector_drawer_open = true;
        self.record_activity(None, "Opened the overall plan conversation");
    }

    /// Shows or hides the steps inside a step, on its card.
    pub fn toggle_expanded(&mut self, id: &NodeId)
        ensures
            final(self)@ == (CanvasModel {
                expanded: match first_place(old(self)@.expanded, id@) {
                    Some(i) => old(self)@.expanded.remove(i),
                    None => old(self)@.expanded.push(id@),
                },
                ..old(self)@
            }),
    {
        let ghost before = self@.expanded;
        match place_of(&self.expanded, id) {
            Some(i) => {
                self.expanded.remove(i);
                proof {
                    assert(self@.expanded =~= before.remove(i as int));
                }
            },
            None => {
                self.expanded.push(id.clone());
                proof {
                    assert(self@.expanded =~= before.push(id@));
                }
            },
        }
    }
}

/// A plan in which a step has a plan of its own, empty if it had none.
pub open spec fn with_nested_plan(plan: GraphModel, id: Seq<char>) -> GraphModel {
    match plan.node(id) {
        Some(node) => plan.with_step(
            id,
            NodeModel {
                subplan: Some(
                    match node.subplan {
                        Some(g) => g,
                        None => Box::new(GraphModel::empty()),
                    },
                ),
                ..node
            },
        ),
        None => plan,
    }
}

fn open_nested(plan: &mut ArchitectGraph, id: &NodeId)
    ensures
        final(plan)@ == with_nested_plan(old(plan)@, id@),
{
    let _ = plan.subplan_mut(id);
}

/// Whether a text is made of thirty-two hexadecimal digits, in lower case.
pub open spec fn are_digits(digits: Seq<char>) -> bool {
    digits.len() == 32 && forall|i: int|
        0 <= i < digits.len() ==> ('0' <= #[trigger] digits[i] && digits[i] <= '9') || ('a'
            <= digits[i] && digits[i] <= 'f')
}

/// A random identifier: the hexadecimal digits of a version 4 UUID, from
/// `uuid::Uuid::new_v4` and `uuid::Uuid::simple`. Which ones they are is left to
/// chance; there are always thirty-two of them.
#[verifier::external_body]
fn random_digits() -> (res: String)
    ensures
        are_digits(res@),
{
    uuid::Uuid::new_v4().simple().to_string()
}

impl CanvasModel {
    /// The canvas after a step was added to the plan on screen.
    pub open spec fn step_added(self, id: Seq<char>, shown: Option<GraphModel>) -> CanvasModel {
        self.noted(Some(self.focus.push(id)), "Added this step to the plan"@).selecting(
            Some(SelectionModel::Node(id)),
            shown,
        )
    }
}

/// A new step, at a place on the canvas.
pub open spec fn new_step(id: Seq<char>, position: Position) -> NodeModel {
    NodeModel { position: Some(position), ..NodeModel::fresh(id, "New step"@) }
}

/// The plan after the plan at a path has been edited, where that is not refused.
pub open spec fn edited_at(root: GraphModel, path: Seq<Seq<char>>, edited: GraphModel) -> GraphModel {
    match root.plan_refusal(path) {
        Some(_) => root,
        None => root.with_plan_at(path, edited),
    }
}

impl Canvas {
    /// Changes something about a step on screen. Hands back what the user is told
    /// where the change is refused.
    pub fn edit_node(&self, root: &mut ArchitectGraph, id: &NodeId, edit: NodeEdit) -> (res: Option<
        String,
    >)
        ensures
            ({
                let path = self@.focus.push(id@);
                &&& notice_value(res) == edit_notice(old(root)@.step_refusal(path))
                &&& final(root)@ == (match old(root)@.step_refusal(path) {
                    Some(_) => old(root)@,
                    None => old(root)@.with_step_at(
                        path,
                        edit.applied(old(root)@.step_at(path)->0),
                    ),
                })
            }),
    {
        let path = self.focus.child(id.clone());
        match root.mutate_node_at(&path) {
            Ok(node) => {
                apply_edit(node, edit);
                None
            },
            Err(error) => Some(refusal_text(&error)),
        }
    }

    /// Deletes what is selected. Hands back what the user is told where that is
    /// refused.
    pub fn delete_selection(&mut self, root: &mut ArchitectGraph) -> (res: Option<String>)
        ensures
            ({
                let focus = old(self)@.focus;
                match old(self)@.selection {
                    None => {
                        &&& final(self)@ == old(self)@
                        &&& final(root)@ == old(root)@
                        &&& res is None
                    },
                    Some(SelectionModel::Node(id)) => {
                        let refusal = old(root)@.step_refusal(focus.push(id));
                        &&& notice_value(res) == edit_notice(refusal)
                        &&& refusal is Some ==> final(self)@ == old(self)@ && final(root)@ == old(
                            root)@
                        &&& refusal is None ==> final(root)@ == old(root)@.with_plan_at(
                            focus,
                            old(root)@.plan_at(focus)->0.without_node(id),
                        ) && final(self)@ == old(self)@.noted(
                            Some(focus.push(id)),
                            "Deleted this step from the plan"@,
                        ).selecting(None, final(root)@.graph_at(focus))
                    },
                    Some(SelectionModel::Edge(id)) => {
                        let refusal = old(root)@.edge_refusal(focus, id);
                        &&& notice_value(res) == edit_notice(refusal)
                        &&& refusal is Some ==> final(self)@ == old(self)@ && final(root)@ == old(
                            root)@
                        &&& refusal is None ==> final(root)@ == old(root)@.with_plan_at(
                            focus,
                            old(root)@.plan_at(focus)->0.without_edge(id),
                        ) && final(self)@ == old(self)@.noted(
                            Some(focus),
                            "Deleted a connection from this plan"@,
                        ).selecting(None, final(root)@.graph_at(focus))
                    },
                }
            }),
    {
        let selection = match &self.selection {
            Some(selection) => selection.clone(),
            None => {
                return None;
            },
        };
        match selection {
            Selection::Node(id) => {
                let path = self.focus.child(id);
                proof {
                    assert(path@.drop_last() =~= self@.focus);
                }
                match root.remove_node_at(&path) {
                    Ok(_) => {
                        self.record_activity(Some(path), "Deleted this step from the plan");
                        self.set_selection(None, root);
                        None
                    },
                    Err(error) => Some(refusal_text(&error)),
                }
            },
            Selection::Edge(id) => {
                let focus = self.focus.clone();
                match root.disconnect_at(&focus, &id) {
                    Ok(_) => {
                        self.record_activity(Some(focus), "Deleted a connection from this plan");
                        self.set_selection(None, root);
                        None
                    },
                    Err(error) => Some(refusal_text(&error)),
                }
            },
        }
    }

    /// Locks or unlocks a step on screen. Hands back what the user is told where
    /// that is refused: settling a step that contains a plan would settle that plan
    /// too, which is not the user's to do from out here.
    pub fn toggle_lock(&mut self, root: &mut ArchitectGraph, id: &NodeId) -> (res: Option<String>)
        ensures
            final(self)@ == (CanvasModel { interaction: InteractionModel::Idle, ..old(self)@ }),
            ({
                let path = old(self)@.focus.push(id@);
                match old(root)@.graph_at(old(self)@.focus) {
                    None => res is None && final(root)@ == old(root)@,
                    Some(plan) => {
                        let locked = plan.node(id@) matches Some(node) && node.locked;
                        if !locked && !plan.lockable(id@) {
                            &&& final(root)@ == old(root)@
                            &&& notice_value(res) == Some(
                                "This step contains a plan that is still being argued about. Lock every step inside it first."@,
                            )
                        } else {
                            let refusal = old(root)@.lock_refusal(path, !locked);
                            &&& notice_value(res) == edit_notice(refusal)
                            &&& final(root)@ == (match refusal {
                                Some(_) => old(root)@,
                                None => old(root)@.with_step_at(
                                    path,
                                    NodeModel { locked: !locked, ..old(root)@.step_at(path)->0 },
                                ),
                            })
                        }
                    },
                }
            }),
    {
        self.interaction = Interaction::Idle;
        let mut locked = false;
        match root.graph_at(&self.focus) {
            Some(plan) => {
                if let Some(node) = plan.node(id) {
                    locked = node.locked;
                }
                if !locked && !plan.can_lock(id) {
                    return Some(
                        "This step contains a plan that is still being argued about. Lock every step inside it first.".to_owned(),
                    );
                }
            },
            None => {
                return None;
            },
        }
        let path = self.focus.child(id.clone());
        match root.set_locked_at(&path, !locked) {
            Ok(_) => None,
            Err(error) => Some(refusal_text(&error)),
        }
    }

    /// Locks or unlocks everything in the plan on screen.
    pub fn set_all_locked(&self, root: &mut ArchitectGraph, locked: bool) -> (res: Option<String>)
        ensures
            notice_value(res) == edit_notice(old(root)@.plan_refusal(self@.focus)),
            final(root)@ == edited_at(
                old(root)@,
                self@.focus,
                old(root)@.plan_at(self@.focus)->0.with_locks(locked),
            ),
    {
        match root.mutate_graph_at(&self.focus) {
            Ok(plan) => {
                plan.set_locks(locked);
                None
            },
            Err(error) => Some(refusal_text(&error)),
        }
    }

    /// Adds a step to the plan on screen and selects it. Its id is made from the
    /// given digits.
    pub fn add_step_as(&mut self, root: &mut ArchitectGraph, digits: &str, position: Position) -> (res:
        Option<String>)
        ensures
            ({
                let focus = old(self)@.focus;
                let id = "step-"@ + digits@;
                &&& notice_value(res) == edit_notice(old(root)@.plan_refusal(focus))
                &&& final(root)@ == edited_at(
                    old(root)@,
                    focus,
                    old(root)@.plan_at(focus)->0.with_added(new_step(id, position)),
                )
                &&& final(self)@ == old(self)@.step_added(id, final(root)@.graph_at(focus))
            }),
    {
        let id = NodeId(text::cat2("step-", digits));
        let mut node = ArchitectNode::new(id.0.as_str(), "New step");
        node.position = Some(position);
        proof {
            assert(node@ =~= new_step(id@, position));
        }
        let mut notice: Option<String> = None;
        match root.mutate_graph_at(&self.focus) {
            Ok(plan) => {
                let _ = plan.add_node(node);
            },
            Err(error) => {
                notice = Some(refusal_text(&error));
            },
        }
        let path = self.focus.child(id.clone());
        self.record_activity(Some(path), "Added this step to the plan");
        self.set_selection(Some(Selection::Node(id)), root);
        notice
    }

    /// Adds a step with an id of its own to the plan on screen and selects it.
    pub fn add_step(&mut self, root: &mut ArchitectGraph, position: Position) -> (res: Option<
        String,
    >)
        ensures
            ({
                let focus = old(self)@.focus;
                &&& notice_value(res) == edit_notice(old(root)@.plan_refusal(focus))
                &&& exists|digits: Seq<char>| #[trigger]
                    are_digits(digits) && final(root)@ == edited_at(
                        old(root)@,
                        focus,
                        old(root)@.plan_at(focus)->0.with_added(
                            new_step("step-"@ + digits, position),
                        ),
                    ) && final(self)@ == old(self)@.step_added(
                        "step-"@ + digits,
                        final(root)@.graph_at(focus),
                    )
            }),
    {
        let digits = random_digits();
        let res = self.add_step_as(root, digits.as_str(), position);
        proof {
            assert(are_digits(digits@));
        }
        res
    }

    /// Lays the plan on screen out anew.
    pub fn tidy_up(&mut self, root: &mut ArchitectGraph) -> (res: Option<String>)
        ensures
            notice_value(res) == edit_notice(old(root)@.plan_refusal(old(self)@.focus)),
            final(root)@ == edited_at(
                old(root)@,
                old(self)@.focus,
                old(root)@.plan_at(old(self)@.focus)->0.laid_out(true),
            ),
            final(self)@ == old(self)@.noted(
                Some(old(self)@.focus),
                "Tidied the graph layout"@,
            ),
    {
        let mut notice: Option<String> = None;
        match root.mutate_graph_at(&self.focus) {
            Ok(plan) => {
                plan.relayout();
            },
            Err(error) => {
                notice = Some(refusal_text(&error));
            },
        }
        let focus = self.focus.clone();
        self.record_activity(Some(focus), "Tidied the graph layout");
        notice
    }

    /// Selects the first thing that needs attention, or the first step to run where
    /// nothing does.
    pub fn review_plan(&mut self, root: &ArchitectGraph)
        ensures
            ({
                let shown = root@.graph_at(old(self)@.focus);
                let problems = match shown {
                    Some(plan) => plan.blocking(),
                    None => Seq::empty(),
                };
                let order = match shown {
                    Some(plan) => plan.order_ids(),
                    None => Seq::empty(),
                };
                final(self)@ == old(self)@.noted(
                    None,
                    if problems.len() == 0 {
                        "Reviewed the plan: ready"@
                    } else {
                        "Reviewed the plan: issues need attention"@
                    },
                ).selecting(
                    if problems.len() > 0 {
                        Some(about(problems[0]))
                    } else if order.len() > 0 {
                        Some(SelectionModel::Node(order[0]))
                    } else {
                        None
                    },
                    shown,
                )
            }),
    {
        let mut selection: Option<Selection> = None;
        let mut ready = true;
        if let Some(plan) = root.graph_at(&self.focus) {
            let problems = plan.blocking_problems();
            let order = plan.execution_order();
            proof {
                assert(crate::problems::problem_models(problems@).len() == problems@.len());
                assert(graph::ids(order@).len() == order@.len());
            }
            if problems.len() > 0 {
                ready = false;
                selection = Some(problem_selection(&problems[0]));
            } else if order.len() > 0 {
                proof {
                    assert(graph::ids(order@)[0] == order@[0]@);
                }
                selection = Some(Selection::Node(order[0].clone()));
            }
        }
        self.record_activity(
            None,
            if ready {
                "Reviewed the plan: ready"
            } else {
                "Reviewed the plan: issues need attention"
            },
        );
        self.set_selection(selection, root);
    }

    /// Ends what the pointer was doing. A connection dragged onto another step is
    /// made; hands back what the user is told where that is refused.
    pub fn release_pointer(&mut self, root: &mut ArchitectGraph, target: Option<NodeId>) -> (res:
        Option<String>)
        ensures
            ({
                let focus = old(self)@.focus;
                let idle = CanvasModel { interaction: InteractionModel::Idle, ..old(self)@ };
                match (old(self)@.interaction, id_value(target)) {
                    (InteractionModel::Connecting(from), Some(to)) => if from == to {
                        &&& final(self)@ == idle
                        &&& final(root)@ == old(root)@
                        &&& res is None
                    } else {
                        let refusal = connection_refusal(old(root)@, focus, from, to);
                        let local = old(root)@.plan_at(focus)->0;
                        &&& notice_value(res) == edit_notice(refusal)
                        &&& refusal is Some ==> final(self)@ == idle && final(root)@ == old(root)@
                        &&& refusal is None ==> final(root)@ == old(root)@.with_plan_at(
                            focus,
                            local.with_connection_on(from, to, ConditionModel::Always),
                        ) && final(self)@ == (CanvasModel {
                            interaction: InteractionModel::Idle,
                            ..old(self)@.noted(
                                Some(focus.push(to)),
                                "Connected this step to a predecessor"@,
                            )
                        })
                    },
                    _ => {
                        &&& final(self)@ == idle
                        &&& final(root)@ == old(root)@
                        &&& res is None
                    },
                }
            }),
    {
        let mut notice: Option<String> = None;
        let mut connecting: Option<NodeId> = None;
        if let Interaction::Connecting(from) = &self.interaction {
            connecting = Some(from.clone());
        }
        if let (Some(from), Some(to)) = (connecting, target) {
            if !to.same(&from) {
                let from_path = self.focus.child(from);
                proof {
                    assert(from_path@.drop_last() =~= self@.focus);
                }
                match root.connect_from_at(&from_path, &to, EdgeCondition::Always) {
                    Ok(_) => {
                        let path = self.focus.child(to);
                        self.record_activity(Some(path), "Connected this step to a predecessor");
                    },
                    Err(error) => {
                        notice = Some(refusal_text(&error));
                    },
                }
            }
        }
        self.interaction = Interaction::Idle;
        notice
    }
}

/// Why a connection between two steps of the plan at a path is refused.
pub open spec fn connection_refusal(
    root: GraphModel,
    focus: Seq<Seq<char>>,
    from: Seq<char>,
    to: Seq<char>,
) -> Option<RefusalModel> {
    match root.step_refusal(focus.push(from)) {
        Some(refusal) => Some(refusal),
        None => if root.plan_at(focus)->0.has_node(to) {
            None
        } else {
            Some(RefusalModel::NotFound { path: focus.push(to) })
        },
    }
}

} // verus!
