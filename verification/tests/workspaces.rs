use architect::capability::{annotated_capability, BuiltInTool, ToolCapability, ToolKind};
use architect::cli::{
    begin_install, cli_name, install_notice, link_path, link_read, link_replaced, packaged_notice,
    script_ended, InstallAction, ReleaseChannel,
};
use architect::workspace::{
    arrange, persisted_state, resize_inspector, resize_outline, restored_panel, workspace_mode_key,
    ArchitectLayout, ArchitectWorkspaceMode, ArchitectWorkspaceState, CodeSurface, DockPosition,
    DockSnapshot, OpenItem, StoredWidth,
};

#[test]
fn architect_workspace_state_is_backward_compatible_and_bounded() {
    let state = ArchitectWorkspaceState {
        version: 1,
        mode: ArchitectWorkspaceMode::Code,
        outline_width: StoredWidth::Pixels(20),
        inspector_width: StoredWidth::NotFinite,
    }
    .sanitize();
    assert_eq!(state.mode, ArchitectWorkspaceMode::Code);
    assert_eq!(state.outline_width, StoredWidth::Pixels(184));
    assert_eq!(state.inspector_width, StoredWidth::Pixels(348));

    let restored = persisted_state(Some("{}"), Some(state));
    assert_eq!(restored.mode, ArchitectWorkspaceMode::Code);

    let partial = persisted_state(Some("code"), None);
    assert_eq!(partial.mode, ArchitectWorkspaceMode::Code);
    assert_eq!(partial.outline_width, StoredWidth::Pixels(226));
    assert_eq!(partial.inspector_width, StoredWidth::Pixels(348));
}

#[test]
fn a_value_that_says_nothing_is_ignored() {
    for value in [None, Some("architect"), Some("garbage")] {
        assert_eq!(
            persisted_state(value, None),
            ArchitectWorkspaceState::default()
        );
    }
    let code = ArchitectWorkspaceState::default().with_mode(ArchitectWorkspaceMode::Code);
    assert_eq!(code.mode, ArchitectWorkspaceMode::Code);
}

#[test]
fn responsive_layout_uses_all_four_shell_states() {
    assert_eq!(ArchitectLayout::for_width(1500), ArchitectLayout::Wide);
    assert_eq!(ArchitectLayout::for_width(1200), ArchitectLayout::Medium);
    assert_eq!(ArchitectLayout::for_width(900), ArchitectLayout::Narrow);
    assert_eq!(ArchitectLayout::for_width(600), ArchitectLayout::Compact);
}

#[test]
fn panels_are_as_wide_as_there_is_room_for() {
    assert_eq!(ArchitectLayout::Wide.outline_width(250, 1500), 250);
    assert_eq!(ArchitectLayout::Medium.outline_width(250, 1200), 204);
    assert_eq!(ArchitectLayout::Compact.outline_width(250, 300), 276);
    assert_eq!(ArchitectLayout::Compact.outline_width(250, 100), 240);
    assert_eq!(ArchitectLayout::Wide.inspector_width(400, 1500), 400);
    assert_eq!(ArchitectLayout::Medium.inspector_width(400, 1200), 312);
    assert_eq!(ArchitectLayout::Narrow.inspector_width(400, 900), 348);
    assert_eq!(ArchitectLayout::Compact.inspector_width(400, 1000), 348);
    assert!(ArchitectLayout::Narrow.inline_outline());
    assert!(!ArchitectLayout::Narrow.inline_inspector());
    assert!(!ArchitectLayout::Compact.inline_outline());
    assert_eq!(resize_outline(310, 16), 320);
    assert_eq!(resize_outline(226, -16), 210);
    assert_eq!(resize_inspector(290, -16), 288);
}

#[test]
fn a_panel_without_room_is_shown_over_the_canvas() {
    let shell = arrange(900, 250, 400, false, false);
    assert!(!shell.compact);
    assert!(shell.outline.unwrap().inline);
    assert_eq!(shell.inspector, None);
    let shell = arrange(600, 250, 400, true, true);
    assert!(shell.compact);
    assert!(!shell.outline.unwrap().inline);
    assert_eq!(shell.outline.unwrap().width, 320);
    assert_eq!(shell.inspector.unwrap().width, 348);
    let shell = arrange(1400, 250, 400, false, false);
    assert_eq!(shell.inspector.unwrap().width, 400);
}

#[test]
fn a_workspace_is_remembered_under_its_id() {
    assert_eq!(
        workspace_mode_key(Some(7), Some("s")).as_deref(),
        Some("architect-workspace-mode:7")
    );
    assert_eq!(
        workspace_mode_key(Some(-7), None).as_deref(),
        Some("architect-workspace-mode:-7")
    );
    assert_eq!(
        workspace_mode_key(None, Some("s")).as_deref(),
        Some("architect-workspace-mode:s")
    );
    assert_eq!(workspace_mode_key(None, None), None);
}

fn dock(index: Option<usize>) -> DockSnapshot {
    DockSnapshot {
        position: DockPosition::Left,
        open: true,
        active_panel_index: index,
        active_panel_name: Some("Project".into()),
    }
}

#[test]
fn a_dock_brings_back_the_panel_of_the_name_or_the_place() {
    assert_eq!(restored_panel(Some(2), &dock(Some(0)), 3), Some(2));
    assert_eq!(restored_panel(Some(3), &dock(Some(0)), 3), None);
    assert_eq!(restored_panel(None, &dock(Some(1)), 3), Some(1));
    assert_eq!(restored_panel(None, &dock(Some(5)), 3), None);
    assert_eq!(restored_panel(None, &dock(None), 3), None);
}

#[test]
fn going_to_architect_and_back_restores_the_code_surface() {
    let code = OpenItem {
        id: 4,
        is_architect: false,
    };
    let architect = OpenItem {
        id: 9,
        is_architect: true,
    };
    let surface = CodeSurface::enter(None, false, Some(code), vec![dock(Some(1))]);
    let mut surface = CodeSurface::enter(Some(surface), true, Some(architect), vec![]);
    assert_eq!(surface.docks, vec![dock(Some(1))]);
    assert!(surface.restores_after_discard());
    surface.activate_code();
    assert!(!surface.restores_after_discard());
    assert_eq!(surface.restored_item(true, &vec![architect]), Some(4));
    assert_eq!(
        surface.restored_item(false, &vec![architect, OpenItem { id: 5, ..code }]),
        Some(5)
    );
    assert_eq!(surface.restored_item(false, &vec![architect]), None);
}

#[test]
fn the_tool_is_linked_without_an_administrator_where_that_works() {
    let channel = ReleaseChannel::Dev;
    assert_eq!(cli_name(channel), "praxis");
    assert_eq!(cli_name(ReleaseChannel::Stable), "zed");
    assert_eq!(link_path(channel), "/usr/local/bin/praxis");
    assert_eq!(begin_install(), InstallAction::ReadLink);
    assert_eq!(
        link_read("/app/cli", Some("/app/cli")),
        InstallAction::Installed
    );
    assert_eq!(
        link_read("/app/cli", Some("/old/cli")),
        InstallAction::ReplaceLink
    );
    assert_eq!(link_read("/app/cli", None), InstallAction::ReplaceLink);
    assert_eq!(
        link_replaced("/app/cli", channel, true),
        InstallAction::Installed
    );
    assert_eq!(
        link_replaced("/app/cli", channel, false),
        InstallAction::RunScript(
            "do shell script \" mkdir -p '/usr/local/bin' && ln -sf '/app/cli' \
             '/usr/local/bin/praxis' \" with administrator privileges"
                .into()
        )
    );
}

#[test]
fn dismissing_the_question_is_no_failure() {
    assert_eq!(script_ended(true, "anything"), InstallAction::Installed);
    assert_eq!(
        script_ended(false, "execution error: User canceled. (-128)"),
        InstallAction::Cancelled
    );
    let failed = script_ended(false, " no such user\n");
    assert_eq!(
        failed,
        InstallAction::Failed("error running osascript: no such user".into())
    );
    let notice = install_notice(&failed, ReleaseChannel::Dev, "Praxis").unwrap();
    assert_eq!(notice.title.as_deref(), Some("Couldn't install the Praxis CLI"));
    assert_eq!(
        notice.message,
        "You can add `praxis` to your PATH manually."
    );
    assert_eq!(
        install_notice(&InstallAction::Installed, ReleaseChannel::Dev, "Praxis")
            .unwrap()
            .message,
        "Installed `praxis` to /usr/local/bin/praxis. You can launch Praxis from your terminal."
    );
    assert!(install_notice(&InstallAction::Cancelled, ReleaseChannel::Dev, "Praxis").is_none());
    assert!(packaged_notice("Praxis")
        .message
        .starts_with("If you installed Praxis from a release"));
}

#[test]
fn plan_mode_permits_reading_and_planning() {
    for tool in [
        BuiltInTool::DraftPlan,
        BuiltInTool::RefineStep,
        BuiltInTool::GitStatus,
        BuiltInTool::PullRequest,
    ] {
        assert!(tool.capability().allowed_in_plan_mode());
    }
    assert!(!ToolCapability::default().allowed_in_plan_mode());
    assert!(!ToolCapability::ArbitraryExecution.allowed_in_plan_mode());
    assert_eq!(
        annotated_capability(Some(true), true),
        ToolCapability::ExternalRead
    );
    assert_eq!(
        annotated_capability(Some(true), false),
        ToolCapability::ReadOnly
    );
    assert_eq!(
        annotated_capability(None, false),
        ToolCapability::ExternalMutation
    );
    assert_eq!(BuiltInTool::GitDiff.name(), "git_diff");
    assert_eq!(BuiltInTool::GitDiff.kind(), ToolKind::Search);
}
