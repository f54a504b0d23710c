//! The two surfaces of a workspace, Architect and Code, and how their panels are
//! sized and remembered.
use crate::text;
use vstd::prelude::*;

verus! {

/// Which surface a workspace shows.
#[derive(Clone, Copy, Debug, PartialEq, Eq, Structural)]
pub enum ArchitectWorkspaceMode {
    Architect,
    Code,
}

/// A width as it was stored.
#[derive(Clone, Copy, Debug, PartialEq, Eq, Structural)]
pub enum StoredWidth {
    Pixels(i64),
    /// What was stored is no finite number.
    NotFinite,
}

/// What is remembered of a workspace.
#[derive(Clone, Copy, Debug, PartialEq, Eq, Structural)]
pub struct ArchitectWorkspaceState {
    pub version: u8,
    pub mode: ArchitectWorkspaceMode,
    pub outline_width: StoredWidth,
    pub inspector_width: StoredWidth,
}

/// A number brought between two bounds.
pub open spec fn between(n: int, low: int, high: int) -> int {
    if n < low {
        low
    } else if n > high {
        high
    } else {
        n
    }
}

fn clamp(n: i64, low: i64, high: i64) -> (res: i64)
    ensures
        res == between(n as int, low as int, high as int),
{
    if n < low {
        low
    } else if n > high {
        high
    } else {
        n
    }
}

/// A stored width within its bounds, or the usual one where it is no number.
pub open spec fn tidy_width(width: StoredWidth, usual: int, low: int, high: int) -> int {
    match width {
        StoredWidth::Pixels(n) => between(n as int, low, high),
        StoredWidth::NotFinite => between(usual, low, high),
    }
}

/// What is remembered of a workspace that nothing was stored for.
pub open spec fn usual_state() -> ArchitectWorkspaceState {
    ArchitectWorkspaceState {
        version: 1,
        mode: ArchitectWorkspaceMode::Architect,
        outline_width: StoredWidth::Pixels(226),
        inspector_width: StoredWidth::Pixels(348),
    }
}

/// A state fit for use: of the current version, with widths within bounds.
pub open spec fn sanitized(state: ArchitectWorkspaceState) -> ArchitectWorkspaceState {
    ArchitectWorkspaceState {
        version: 1,
        mode: state.mode,
        outline_width: StoredWidth::Pixels(tidy_width(state.outline_width, 226, 184, 320) as i64),
        inspector_width: StoredWidth::Pixels(
            tidy_width(state.inspector_width, 348, 288, 480) as i64,
        ),
    }
}

impl Default for ArchitectWorkspaceState {
    fn default() -> (res: Self)
        ensures
            res == usual_state(),
    {
        ArchitectWorkspaceState {
            version: 1,
            mode: ArchitectWorkspaceMode::Architect,
            outline_width: StoredWidth::Pixels(226),
            inspector_width: StoredWidth::Pixels(348),
        }
    }
}

impl ArchitectWorkspaceState {
    /// Brings a stored state into bounds.
    pub fn sanitize(self) -> (res: Self)
        ensures
            res == sanitized(self),
    {
        let outline: i64 = match self.outline_width {
            StoredWidth::Pixels(n) => n,
            StoredWidth::NotFinite => 226,
        };
        let inspector: i64 = match self.inspector_width {
            StoredWidth::Pixels(n) => n,
            StoredWidth::NotFinite => 348,
        };
        ArchitectWorkspaceState {
            version: 1,
            mode: self.mode,
            outline_width: StoredWidth::Pixels(clamp(outline, 184, 320)),
            inspector_width: StoredWidth::Pixels(clamp(inspector, 288, 480)),
        }
    }

    /// The state after a switch to another surface.
    pub fn with_mode(self, mode: ArchitectWorkspaceMode) -> (res: Self)
        ensures
            res == sanitized(ArchitectWorkspaceState { mode, ..self }),
    {
        let mut state = self;
        state.mode = mode;
        state.sanitize()
    }
}

/// What a stored value says. Older values are a bare word; `parsed` is what the value
/// reads as otherwise.
pub open spec fn recalled(
    value: Option<Seq<char>>,
    parsed: Option<ArchitectWorkspaceState>,
) -> ArchitectWorkspaceState {
    match value {
        None => usual_state(),
        Some(word) => if word == "code"@ {
            ArchitectWorkspaceState { mode: ArchitectWorkspaceMode::Code, ..usual_state() }
        } else if word == "architect"@ {
            usual_state()
        } else {
            match parsed {
                Some(state) => sanitized(state),
                None => usual_state(),
            }
        },
    }
}

/// Reads a stored value; a store that could not be read has none.
pub fn persisted_state(
    value: Option<&str>,
    parsed: Option<ArchitectWorkspaceState>,
) -> (res: ArchitectWorkspaceState)
    ensures
        res == recalled(
            match value {
                Some(word) => Some(word@),
                None => None,
            },
            parsed,
        ),
{
    match value {
        None => ArchitectWorkspaceState::default(),
        Some(word) => if text::same(word, "code") {
            let mut state = ArchitectWorkspaceState::default();
            state.mode = ArchitectWorkspaceMode::Code;
            state
        } else if text::same(word, "architect") {
            ArchitectWorkspaceState::default()
        } else {
            match parsed {
                Some(state) => state.sanitize(),
                None => ArchitectWorkspaceState::default(),
            }
        },
    }
}

/// A stored state is fit for use however often it is brought into bounds, and so is
/// whatever is read back.
pub proof fn law_remembered_widths_are_in_bounds(
    value: Option<Seq<char>>,
    parsed: Option<ArchitectWorkspaceState>,
)
    ensures
        sanitized(recalled(value, parsed)) == recalled(value, parsed),
{
}

/// What the state of a workspace is stored under: its id in the database, or that of
/// its session where it has none.
pub fn workspace_mode_key(database_id: Option<i64>, session_id: Option<&str>) -> (res: Option<
    String,
>)
    ensures
        match (database_id, session_id) {
            (Some(id), _) => res matches Some(key) && key@ == "architect-workspace-mode:"@ + text::signed_decimal(
                id as int,
            ),
            (None, Some(id)) => res matches Some(key) && key@ == "architect-workspace-mode:"@ + id@,
            (None, None) => res is None,
        },
{
    match database_id {
        Some(id) => Some(text::cat2("architect-workspace-mode:", text::signed_number(id).as_str())),
        None => match session_id {
            Some(id) => Some(text::cat2("architect-workspace-mode:", id)),
            None => None,
        },
    }
}

fn resized(width: i64, delta: i64, low: i64, high: i64) -> (res: i64)
    requires
        low <= high,
    ensures
        res == between(width + delta, low as int, high as int),
{
    let sum: i128 = width as i128 + delta as i128;
    if sum < low as i128 {
        low
    } else if sum > high as i128 {
        high
    } else {
        sum as i64
    }
}

/// The width of the outline after a step wider or narrower.
pub fn resize_outline(width: i64, delta: i64) -> (res: i64)
    ensures
        res == between(width + delta, 184, 320),
{
    resized(width, delta, 184, 320)
}

/// The width of the inspector after a step wider or narrower.
pub fn resize_inspector(width: i64, delta: i64) -> (res: i64)
    ensures
        res == between(width + delta, 288, 480),
{
    resized(width, delta, 288, 480)
}

/// How much the window has room for.
#[derive(Clone, Copy, Debug, PartialEq, Eq, Structural)]
pub enum ArchitectLayout {
    Wide,
    Medium,
    Narrow,
    Compact,
}

/// What a window of a width has room for.
pub open spec fn layout_for(width: int) -> ArchitectLayout {
    if width >= 1320 {
        ArchitectLayout::Wide
    } else if width >= 1060 {
        ArchitectLayout::Medium
    } else if width >= 760 {
        ArchitectLayout::Narrow
    } else {
        ArchitectLayout::Compact
    }
}

impl ArchitectLayout {
    /// How wide the outline is. The width the user chose counts where there is room
    /// for it.
    pub open spec fn outline_room(self, chosen: int, viewport: int) -> int {
        match self {
            ArchitectLayout::Wide => chosen,
            ArchitectLayout::Medium | ArchitectLayout::Narrow => 204,
            ArchitectLayout::Compact => between(viewport - 24, 240, 320),
        }
    }

    /// How wide the inspector is.
    pub open spec fn inspector_room(self, chosen: int, viewport: int) -> int {
        match self {
            ArchitectLayout::Wide => chosen,
            ArchitectLayout::Medium => 312,
            ArchitectLayout::Narrow => 348,
            ArchitectLayout::Compact => between(viewport - 24, 280, 348),
        }
    }

    /// What a window of a width, in whole pixels, has room for.
    pub fn for_width(width: i64) -> (res: Self)
        ensures
            res == layout_for(width as int),
    {
        if width >= 1320 {
            ArchitectLayout::Wide
        } else if width >= 1060 {
            ArchitectLayout::Medium
        } else if width >= 760 {
            ArchitectLayout::Narrow
        } else {
            ArchitectLayout::Compact
        }
    }

    /// Whether the outline stands beside the canvas rather than over it.
    pub fn inline_outline(self) -> (res: bool)
        ensures
            res == (self != ArchitectLayout::Compact),
    {
        !matches!(self, ArchitectLayout::Compact)
    }

    /// Whether the inspector stands beside the canvas rather than over it.
    pub fn inline_inspector(self) -> (res: bool)
        ensures
            res == (self == ArchitectLayout::Wide || self == ArchitectLayout::Medium),
    {
        matches!(self, ArchitectLayout::Wide | ArchitectLayout::Medium)
    }

    /// How wide the outline is. The width the user chose counts where there is room
    /// for it.
    pub fn outline_width(self, chosen: i64, viewport: i64) -> (res: i64)
        ensures
            res == self.outline_room(chosen as int, viewport as int),
    {
        match self {
            ArchitectLayout::Wide => chosen,
            ArchitectLayout::Medium | ArchitectLayout::Narrow => 204,
            ArchitectLayout::Compact => resized(viewport, -24, 240, 320),
        }
    }

    /// How wide the inspector is.
    pub fn inspector_width(self, chosen: i64, viewport: i64) -> (res: i64)
        ensures
            res == self.inspector_room(chosen as int, viewport as int),
    {
        match self {
            ArchitectLayout::Wide => chosen,
            ArchitectLayout::Medium => 312,
            ArchitectLayout::Narrow => 348,
            ArchitectLayout::Compact => resized(viewport, -24, 280, 348),
        }
    }
}

/// A panel that is shown: beside the canvas or over it, and how wide.
#[derive(Clone, Copy, Debug, PartialEq, Eq, Structural)]
pub struct PanelPlace {
    pub inline: bool,
    pub width: i64,
}

/// How the window is shared out.
#[derive(Clone, Copy, Debug, PartialEq, Eq, Structural)]
pub struct Shell {
    /// Whether the bars around the canvas have to make do with little room.
    pub compact: bool,
    pub outline: Option<PanelPlace>,
    pub inspector: Option<PanelPlace>,
}

/// Shares the window out. A panel that has no room beside the canvas is shown over it
/// while it is open.
pub fn arrange(
    viewport: i64,
    outline_width: i64,
    inspector_width: i64,
    outline_open: bool,
    inspector_open: bool,
) -> (res: Shell)
    ensures
        ({
            let layout = layout_for(viewport as int);
            let inline_outline = layout != ArchitectLayout::Compact;
            let inline_inspector = layout == ArchitectLayout::Wide || layout
                == ArchitectLayout::Medium;
            &&& res.compact == !inline_outline
            &&& match res.outline {
                Some(place) => {
                    &&& inline_outline || outline_open
                    &&& place.inline == inline_outline
                    &&& place.width == layout.outline_room(outline_width as int, viewport as int)
                },
                None => !inline_outline && !outline_open,
            }
            &&& match res.inspector {
                Some(place) => {
                    &&& inline_inspector || inspector_open
                    &&& place.inline == inline_inspector
                    &&& place.width == layout.inspector_room(
                        inspector_width as int,
                        viewport as int,
                    )
                },
                None => !inline_inspector && !inspector_open,
            }
        }),
{
    let layout = ArchitectLayout::for_width(viewport);
    let inline_outline = layout.inline_outline();
    let inline_inspector = layout.inline_inspector();
    Shell {
        compact: !inline_outline,
        outline: if inline_outline || outline_open {
            Some(
                PanelPlace {
                    inline: inline_outline,
                    width: layout.outline_width(outline_width, viewport),
                },
            )
        } else {
            None
        },
        inspector: if inline_inspector || inspector_open {
            Some(
                PanelPlace {
                    inline: inline_inspector,
                    width: layout.inspector_width(inspector_width, viewport),
                },
            )
        } else {
            None
        },
    }
}

/// Where a dock stands.
#[derive(Clone, Copy, Debug, PartialEq, Eq, Structural)]
pub enum DockPosition {
    Left,
    Bottom,
    Right,
}

/// How a dock stood when the Code surface was left.
#[derive(Debug, PartialEq, Eq)]
pub struct DockSnapshot {
    pub position: DockPosition,
    pub open: bool,
    pub active_panel_index: Option<usize>,
    pub active_panel_name: Option<String>,
}

/// How a dock stood when the Code surface was left.
#[verifier::ext_equal]
pub struct DockModel {
    pub position: DockPosition,
    pub open: bool,
    pub active_panel_index: Option<usize>,
    pub active_panel_name: Option<Seq<char>>,
}

impl View for DockSnapshot {
    type V = DockModel;

    open spec fn view(&self) -> DockModel {
        DockModel {
            position: self.position,
            open: self.open,
            active_panel_index: self.active_panel_index,
            active_panel_name: crate::canvas::notice_value(self.active_panel_name),
        }
    }
}

impl Clone for DockSnapshot {
    fn clone(&self) -> (res: Self)
        ensures
            res@ == self@,
    {
        DockSnapshot {
            position: self.position,
            open: self.open,
            active_panel_index: self.active_panel_index,
            active_panel_name: match &self.active_panel_name {
                Some(name) => Some(name.clone()),
                None => None,
            },
        }
    }
}

/// Which panel of a dock is brought back: the one that has the name now, or the one
/// in the old place. `named` is where the panel of that name stands now. A place that
/// the dock no longer has brings nothing back.
pub fn restored_panel(named: Option<usize>, snapshot: &DockSnapshot, panels: usize) -> (res: Option<
    usize,
>)
    ensures
        res == (match (named, snapshot@.active_panel_index) {
            (Some(ix), _) => if ix < panels {
                Some(ix)
            } else {
                None
            },
            (None, Some(ix)) => if ix < panels {
                Some(ix)
            } else {
                None
            },
            (None, None) => None,
        }),
{
    let place = match named {
        Some(ix) => Some(ix),
        None => snapshot.active_panel_index,
    };
    match place {
        Some(ix) => if ix < panels {
            Some(ix)
        } else {
            None
        },
        None => None,
    }
}

/// An item of a workspace, by its number.
#[derive(Clone, Copy, Debug, PartialEq, Eq, Structural)]
pub struct OpenItem {
    pub id: u64,
    pub is_architect: bool,
}

/// What the Architect surface remembers of the Code surface.
#[derive(Debug)]
pub struct CodeSurface {
    pub mode: ArchitectWorkspaceMode,
    pub previous_item: Option<u64>,
    pub docks: Vec<DockSnapshot>,
}

/// What the Architect surface remembers of the Code surface.
#[verifier::ext_equal]
pub struct SurfaceModel {
    pub mode: ArchitectWorkspaceMode,
    pub previous_item: Option<u64>,
    pub docks: Seq<DockModel>,
}

/// Docks as mathematical values.
pub open spec fn dock_models(docks: Seq<DockSnapshot>) -> Seq<DockModel> {
    docks.map_values(|d: DockSnapshot| d@)
}

impl View for CodeSurface {
    type V = SurfaceModel;

    open spec fn view(&self) -> SurfaceModel {
        SurfaceModel {
            mode: self.mode,
            previous_item: self.previous_item,
            docks: dock_models(self.docks@),
        }
    }
}

/// The active item, unless it is the Architect surface itself.
pub open spec fn code_item(active: Option<OpenItem>) -> Option<u64> {
    match active {
        Some(item) => if item.is_architect {
            None
        } else {
            Some(item.id)
        },
        None => None,
    }
}

/// The first open item that is not the Architect surface.
pub open spec fn first_code_item(open: Seq<OpenItem>) -> Option<u64>
    decreases open.len(),
{
    if open.len() == 0 {
        None
    } else {
        match first_code_item(open.drop_last()) {
            Some(id) => Some(id),
            None => code_item(Some(open.last())),
        }
    }
}

/// What is remembered once the Architect surface is shown. Opening it from itself
/// forgets nothing; opening it over another surface remembers how that one stood.
pub open spec fn entered(
    before: Option<SurfaceModel>,
    already_active: bool,
    active: Option<OpenItem>,
    docks: Seq<DockModel>,
) -> SurfaceModel {
    let known = match before {
        Some(surface) => surface,
        None => SurfaceModel {
            mode: ArchitectWorkspaceMode::Architect,
            previous_item: None,
            docks: Seq::empty(),
        },
    };
    SurfaceModel {
        mode: ArchitectWorkspaceMode::Architect,
        previous_item: if already_active || code_item(active) is None {
            known.previous_item
        } else {
            code_item(active)
        },
        docks: if already_active {
            known.docks
        } else {
            docks
        },
    }
}

impl CodeSurface {
    /// Shows the Architect surface. `surface` is what is remembered where the surface
    /// was open before.
    pub fn enter(
        surface: Option<CodeSurface>,
        already_active: bool,
        active: Option<OpenItem>,
        docks: Vec<DockSnapshot>,
    ) -> (res: CodeSurface)
        ensures
            res@ == entered(
                match surface {
                    Some(known) => Some(known@),
                    None => None,
                },
                already_active,
                active,
                dock_models(docks@),
            ),
    {
        let mut known = match surface {
            Some(known) => known,
            None => {
                let none: Vec<DockSnapshot> = Vec::new();
                proof {
                    assert(dock_models(none@) =~= Seq::empty());
                }
                CodeSurface {
                    mode: ArchitectWorkspaceMode::Architect,
                    previous_item: None,
                    docks: none,
                }
            },
        };
        known.mode = ArchitectWorkspaceMode::Architect;
        if !already_active {
            if let Some(item) = active {
                if !item.is_architect {
                    known.previous_item = Some(item.id);
                }
            }
            known.docks = docks;
        }
        known
    }

    /// Leaves the Architect surface for the Code surface.
    pub fn activate_code(&mut self)
        ensures
            final(self)@ == (SurfaceModel { mode: ArchitectWorkspaceMode::Code, ..old(self)@ }),
    {
        self.mode = ArchitectWorkspaceMode::Code;
    }

    /// Whether the Code surface has to be brought back when the Architect surface is
    /// closed: only where that surface was still showing.
    pub fn restores_after_discard(&self) -> (res: bool)
        ensures
            res == (self@.mode == ArchitectWorkspaceMode::Architect),
    {
        matches!(self.mode, ArchitectWorkspaceMode::Architect)
    }

    /// The item that is brought back: the one remembered, or the first open one that
    /// is not the Architect surface. `alive` says whether the remembered one is still
    /// open.
    pub fn restored_item(&self, alive: bool, open: &Vec<OpenItem>) -> (res: Option<u64>)
        ensures
            res == (if alive && self@.previous_item is Some {
                self@.previous_item
            } else {
                first_code_item(open@)
            }),
    {
        if alive {
            if let Some(id) = self.previous_item {
                return Some(id);
            }
        }
        let mut found: Option<u64> = None;
        for k in 0..open.len()
            invariant
                found == first_code_item(open@.take(k as int)),
        {
            proof {
                assert(open@.take(k + 1).drop_last() =~= open@.take(k as int));
            }
            if found.is_none() && !open[k].is_architect {
                found = Some(open[k].id);
            }
        }
        proof {
            assert(open@.take(open@.len() as int) =~= open@);
        }
        found
    }
}

/// Going to the Architect surface and back restores the docks and the item of the
/// Code surface as they were left, however often the Architect surface was opened
/// again in between.
pub proof fn law_code_surface_is_restored(
    before: Option<SurfaceModel>,
    active: OpenItem,
    docks: Seq<DockModel>,
    again: Option<OpenItem>,
    other: Seq<DockModel>,
)
    requires
        !active.is_architect,
    ensures
        ({
            let first = entered(before, false, Some(active), docks);
            let second = entered(Some(first), true, again, other);
            &&& second.docks == docks
            &&& second.previous_item == Some(active.id)
        }),
{
}

/// What is fit for use keeps the surface and every width that is within its bounds; other
/// widths become the nearest bound, and what is no number the usual width. What was never
/// stored, or cannot be read, is the usual state, and a bare word says which surface.
pub proof fn law_states_keep_what_is_in_bounds(
    state: ArchitectWorkspaceState,
    value: Seq<char>,
    outline: int,
    inspector: int,
)
    requires
        sanitized(state).outline_width == StoredWidth::Pixels(outline as i64),
        sanitized(state).inspector_width == StoredWidth::Pixels(inspector as i64),
        i64::MIN <= outline <= i64::MAX,
        i64::MIN <= inspector <= i64::MAX,
    ensures
        sanitized(state).mode == state.mode,
        sanitized(state).version == 1,
        184 <= outline <= 320,
        288 <= inspector <= 480,
        state.outline_width matches StoredWidth::Pixels(n) ==> (184 <= n <= 320 ==> outline == n)
            && (n < 184 ==> outline == 184) && (n > 320 ==> outline == 320),
        state.inspector_width matches StoredWidth::Pixels(n) ==> (288 <= n <= 480 ==> inspector
            == n) && (n < 288 ==> inspector == 288) && (n > 480 ==> inspector == 480),
        state.outline_width is NotFinite ==> outline == 226,
        state.inspector_width is NotFinite ==> inspector == 348,
        recalled(None, Some(state)) == usual_state(),
        recalled(Some("code"@), Some(state)).mode == ArchitectWorkspaceMode::Code,
        recalled(Some("architect"@), Some(state)).mode == ArchitectWorkspaceMode::Architect,
        value != "code"@ && value != "architect"@ ==> recalled(Some(value), Some(state)).mode
            == state.mode && recalled(Some(value), None) == usual_state(),
{
    reveal_strlit("code");
    reveal_strlit("architect");
    assert("code"@.len() == 4 && "architect"@.len() == 9);
}

/// A wider window never has less room: the layouts follow each other as it grows.
pub proof fn law_wider_windows_have_more_room(a: int, b: int)
    requires
        a <= b,
    ensures
        layout_for(b) is Compact ==> layout_for(a) is Compact,
        layout_for(a) is Wide ==> layout_for(b) is Wide,
        layout_for(a) is Medium ==> layout_for(b) is Medium || layout_for(b) is Wide,
        layout_for(a) is Narrow ==> !(layout_for(b) is Compact),
{
}

} // verus!
