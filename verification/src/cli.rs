//! Putting the command line tool where a terminal finds it.
use crate::panel::{self, contains};
use crate::text;
use vstd::prelude::*;
use vstd::string::StringExecFns;

verus! {

/// Which build of the application this is.
#[derive(Clone, Copy, Debug, PartialEq, Eq, Structural)]
pub enum ReleaseChannel {
    Dev,
    Nightly,
    Preview,
    Stable,
}

/// What the command line tool of a build is called.
pub open spec fn tool_name(channel: ReleaseChannel) -> Seq<char> {
    match channel {
        ReleaseChannel::Dev => "praxis"@,
        _ => "zed"@,
    }
}

/// What the command line tool of a build is called.
pub fn cli_name(channel: ReleaseChannel) -> (res: String)
    ensures
        res@ == tool_name(channel),
{
    match channel {
        ReleaseChannel::Dev => "praxis".to_owned(),
        _ => "zed".to_owned(),
    }
}

/// Where the tool is linked from.
pub fn link_path(channel: ReleaseChannel) -> (res: String)
    ensures
        res@ == "/usr/local/bin/"@ + tool_name(channel),
{
    text::cat2("/usr/local/bin/", cli_name(channel).as_str())
}

/// What comes next in an installation.
#[derive(Debug, PartialEq, Eq)]
pub enum InstallAction {
    /// Read where the link points.
    ReadLink,
    /// Remove what stands in place of the link, whether or not that works, and make
    /// the link.
    ReplaceLink,
    /// Run a script that asks for an administrator.
    RunScript(String),
    Installed,
    /// The user dismissed the question for an administrator.
    Cancelled,
    Failed(String),
}

/// What comes next in an installation.
#[verifier::ext_equal]
pub enum ActionModel {
    ReadLink,
    ReplaceLink,
    RunScript(Seq<char>),
    Installed,
    Cancelled,
    Failed(Seq<char>),
}

impl View for InstallAction {
    type V = ActionModel;

    open spec fn view(&self) -> ActionModel {
        match *self {
            InstallAction::ReadLink => ActionModel::ReadLink,
            InstallAction::ReplaceLink => ActionModel::ReplaceLink,
            InstallAction::RunScript(script) => ActionModel::RunScript(script@),
            InstallAction::Installed => ActionModel::Installed,
            InstallAction::Cancelled => ActionModel::Cancelled,
            InstallAction::Failed(reason) => ActionModel::Failed(reason@),
        }
    }
}

/// The first thing to do.
pub fn begin_install() -> (res: InstallAction)
    ensures
        res@ == ActionModel::ReadLink,
{
    InstallAction::ReadLink
}

/// What to do about a link: nothing, where it points to the tool already. `target`
/// is where it points, if it could be read.
pub fn link_read(cli_path: &str, target: Option<&str>) -> (res: InstallAction)
    ensures
        res@ == (match target {
            Some(path) => if path@ == cli_path@ {
                ActionModel::Installed
            } else {
                ActionModel::ReplaceLink
            },
            None => ActionModel::ReplaceLink,
        }),
{
    match target {
        Some(path) => if text::same(path, cli_path) {
            InstallAction::Installed
        } else {
            InstallAction::ReplaceLink
        },
        None => InstallAction::ReplaceLink,
    }
}

/// The script that makes the link as an administrator.
pub open spec fn link_script(cli_path: Seq<char>, channel: ReleaseChannel) -> Seq<char> {
    "do shell script \" mkdir -p '/usr/local/bin' && ln -sf '"@ + cli_path + "' '/usr/local/bin/"@
        + tool_name(channel) + "' \" with administrator privileges"@
}

/// What to do once the link was tried without an administrator.
pub fn link_replaced(cli_path: &str, channel: ReleaseChannel, linked: bool) -> (res: InstallAction)
    ensures
        res@ == (if linked {
            ActionModel::Installed
        } else {
            ActionModel::RunScript(link_script(cli_path@, channel))
        }),
{
    if linked {
        return InstallAction::Installed;
    }
    InstallAction::RunScript(
        text::cat5(
            "do shell script \" mkdir -p '/usr/local/bin' && ln -sf '",
            cli_path,
            "' '/usr/local/bin/",
            cli_name(channel).as_str(),
            "' \" with administrator privileges",
        ),
    )
}

/// Whether what a script wrote says that the user dismissed the question for an
/// administrator.
pub open spec fn was_dismissed(written: Seq<char>) -> bool {
    panel::occurs(written, "User canceled"@) || panel::occurs(written, "-128"@)
}

/// What came of the script. Dismissing the question is no failure: the user chose
/// it.
pub fn script_ended(success: bool, written: &str) -> (res: InstallAction)
    ensures
        res@ == (if success {
            ActionModel::Installed
        } else if was_dismissed(written@) {
            ActionModel::Cancelled
        } else {
            ActionModel::Failed("error running osascript: "@ + text::trimmed(written@))
        }),
{
    if success {
        InstallAction::Installed
    } else if contains(written, "User canceled") || contains(written, "-128") {
        InstallAction::Cancelled
    } else {
        InstallAction::Failed(text::cat2("error running osascript: ", text::trim(written)))
    }
}

/// What the user is told after an installation.
#[derive(Debug, PartialEq, Eq)]
pub struct InstallNotice {
    pub title: Option<String>,
    pub message: String,
    /// Where to read how to do it by hand.
    pub more_info: Option<String>,
}

/// What the user is told on a system where packages bring the tool.
pub fn packaged_notice(app_name: &str) -> (res: InstallNotice)
    ensures
        res.title matches Some(title) && title@ == "CLI should already be installed"@,
        res.message@ == "If you installed "@ + app_name@
            + " from a release, add ~/.local/bin to your PATH.\n\nIf you installed it through a package manager, you may need to create an alias or symlink manually."@,
        res.more_info is None,
{
    InstallNotice {
        title: Some("CLI should already be installed".to_owned()),
        message: text::cat3(
            "If you installed ",
            app_name,
            " from a release, add ~/.local/bin to your PATH.\n\nIf you installed it through a package manager, you may need to create an alias or symlink manually.",
        ),
        more_info: None,
    }
}

/// What the user is told once an installation has ended: nothing while it goes on, or
/// where the user stopped it.
pub fn install_notice(action: &InstallAction, channel: ReleaseChannel, app_name: &str) -> (res:
    Option<InstallNotice>)
    ensures
        match action@ {
            ActionModel::Installed => {
                &&& res matches Some(notice)
                &&& notice.title is None
                &&& notice.message@ == "Installed `"@ + tool_name(channel) + "` to /usr/local/bin/"@
                    + tool_name(channel) + ". You can launch "@ + app_name@
                    + " from your terminal."@
                &&& notice.more_info is None
            },
            ActionModel::Failed(_) => {
                &&& res matches Some(notice)
                &&& notice.title matches Some(title)
                &&& title@ == "Couldn't install the "@ + app_name@ + " CLI"@
                &&& notice.message@ == "You can add `"@ + tool_name(channel)
                    + "` to your PATH manually."@
                &&& notice.more_info matches Some(url)
                &&& url@ == "https://zed.dev/docs/macos#cant-install-cli"@
            },
            _ => res is None,
        },
{
    let tool = cli_name(channel);
    match action {
        InstallAction::Installed => {
            let mut message = text::cat5(
                "Installed `",
                tool.as_str(),
                "` to /usr/local/bin/",
                tool.as_str(),
                ". You can launch ",
            );
            message.append(app_name);
            message.append(" from your terminal.");
            Some(InstallNotice { title: None, message, more_info: None })
        },
        InstallAction::Failed(_) => Some(
            InstallNotice {
                title: Some(text::cat3("Couldn't install the ", app_name, " CLI")),
                message: text::cat3("You can add `", tool.as_str(), "` to your PATH manually."),
                more_info: Some("https://zed.dev/docs/macos#cant-install-cli".to_owned()),
            },
        ),
        _ => None,
    }
}

} // verus!
