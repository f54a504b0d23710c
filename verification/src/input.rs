//! What keys and the pointer do on the canvas.
use crate::canvas::{
    self, Canvas, CanvasModel, Interaction, InteractionModel, KeyAction, NodeEdit, Selection,
    SelectionModel,
};
use crate::graph::{ArchitectGraph, EdgeId, NodeId, Position};
use crate::model::{GraphModel, NodeModel};
use vstd::prelude::*;

verus! {

impl CanvasModel {
    /// The canvas after a key. Escape also ends what the pointer was doing; deleting
    /// changes the plan, and is left to whoever holds it.
    pub open spec fn after_key(self, key: Seq<char>, root: GraphModel) -> CanvasModel {
        let idle = if key == "escape"@ {
            CanvasModel { interaction: InteractionModel::Idle, ..self }
        } else {
            self
        };
        match self.key_means(key) {
            KeyAction::SelectNext => idle.stepped(root, true),
            KeyAction::SelectPrevious => idle.stepped(root, false),
            KeyAction::OpenInspector => CanvasModel { inspector_drawer_open: true, ..idle },
            KeyAction::CloseInspector => CanvasModel { inspector_drawer_open: false, ..idle },
            KeyAction::CloseOutline => CanvasModel { outline_drawer_open: false, ..idle },
            KeyAction::ClosePlanConversation => CanvasModel {
                plan_conversation_open: false,
                ..idle
            },
            KeyAction::ClearSelection => idle.selecting(None, root.graph_at(self.focus)),
            KeyAction::DrillOut => idle.drilled_out(root),
            KeyAction::DeleteSelection | KeyAction::Nothing => idle,
        }
    }
}

impl Canvas {
    /// Does what a key asks for, and says what that was. Deleting is left to the
    /// caller.
    pub fn press_key(&mut self, root: &ArchitectGraph, key: &str) -> (res: KeyAction)
        ensures
            res == old(self)@.key_means(key@),
            final(self)@ == old(self)@.after_key(key@, root@),
    {
        let action = self.key_action(key);
        if crate::text::same(key, "escape") {
            self.interaction = Interaction::Idle;
        }
        match action {
            KeyAction::SelectNext => self.select_adjacent_step(true, root),
            KeyAction::SelectPrevious => self.select_adjacent_step(false, root),
            KeyAction::OpenInspector => {
                self.inspector_drawer_open = true;
            },
            KeyAction::CloseInspector => {
                self.inspector_drawer_open = false;
            },
            KeyAction::CloseOutline => {
                self.outline_drawer_open = false;
            },
            KeyAction::ClosePlanConversation => {
                self.plan_conversation_open = false;
            },
            KeyAction::ClearSelection => self.set_selection(None, root),
            KeyAction::DrillOut => {
                let _ = self.drill_out(root);
            },
            KeyAction::DeleteSelection | KeyAction::Nothing => {},
        }
        action
    }

    /// Presses the pointer on the canvas, off any step: the connection under it is
    /// selected, or nothing, and the canvas starts to be dragged.
    pub fn press_canvas(&mut self, root: &ArchitectGraph, edge: Option<EdgeId>)
        ensures
            final(self)@ == (CanvasModel {
                interaction: InteractionModel::Panning,
                ..old(self)@.selecting(
                    match edge {
                        Some(id) => Some(SelectionModel::Edge(id@)),
                        None => None,
                    },
                    root@.graph_at(old(self)@.focus),
                )
            }),
    {
        let selection = match edge {
            Some(id) => Some(Selection::Edge(id)),
            None => None,
        };
        self.set_selection(selection, root);
        self.interaction = Interaction::Panning;
    }

    /// Presses the pointer on a step, which selects it. Says whether the step is to be
    /// opened, which pressing twice asks for; pressed once, it starts to be dragged.
    pub fn press_step(&mut self, root: &ArchitectGraph, id: &NodeId, click_count: usize) -> (res: bool)
        ensures
            res == (click_count >= 2),
            ({
                let selected = old(self)@.selecting(
                    Some(SelectionModel::Node(id@)),
                    root@.graph_at(old(self)@.focus),
                );
                final(self)@ == (if click_count >= 2 {
                    selected
                } else {
                    (CanvasModel { interaction: InteractionModel::DraggingNode(id@), ..selected })
                })
            }),
    {
        self.set_selection(Some(Selection::Node(id.clone())), root);
        if click_count >= 2 {
            return true;
        }
        self.interaction = Interaction::DraggingNode(id.clone());
        false
    }

    /// Presses the pointer on the handle of a step, which starts a connection.
    pub fn press_handle(&mut self, id: &NodeId)
        ensures
            final(self)@ == (CanvasModel {
                interaction: InteractionModel::Connecting(id@),
                ..old(self)@
            }),
    {
        self.interaction = Interaction::Connecting(id.clone());
    }

    /// Moves the pointer. With nothing going on, the step under it is pointed at; a
    /// step that is being dragged follows. Hands back what the user is told where that
    /// is refused. `under` is the step under the pointer, `dragged_to` where the
    /// dragged step would stand.
    pub fn move_pointer(
        &mut self,
        root: &mut ArchitectGraph,
        under: Option<NodeId>,
        dragged_to: Position,
    ) -> (res: Option<String>)
        ensures
            match old(self)@.interaction {
                InteractionModel::Idle => {
                    &&& final(self)@ == (CanvasModel {
                        hovered_node: canvas::id_value(under),
                        ..old(self)@
                    })
                    &&& final(root)@ == old(root)@
                    &&& res is None
                },
                InteractionModel::DraggingNode(id) => {
                    let path = old(self)@.focus.push(id);
                    &&& final(self)@ == old(self)@
                    &&& canvas::notice_value(res) == canvas::edit_notice(
                        old(root)@.step_refusal(path),
                    )
                    &&& final(root)@ == (match old(root)@.step_refusal(path) {
                        Some(_) => old(root)@,
                        None => old(root)@.with_step_at(
                            path,
                            NodeModel {
                                position: Some(dragged_to),
                                ..old(root)@.step_at(path)->0
                            },
                        ),
                    })
                },
                _ => final(self)@ == old(self)@ && final(root)@ == old(root)@ && res is None,
            },
    {
        let dragged = match &self.interaction {
            Interaction::Idle => {
                self.hovered_node = under;
                return None;
            },
            Interaction::DraggingNode(id) => id.clone(),
            _ => {
                return None;
            },
        };
        self.edit_node(root, &dragged, NodeEdit::Place(dragged_to))
    }
}

} // verus!
