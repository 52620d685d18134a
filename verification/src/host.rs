//! The machine that the updater runs on, and the commands it runs there.

use vstd::prelude::*;
use crate::args::texts;
use crate::path::Style;

verus! {

/// The platforms that the updater tells apart.
#[derive(Clone, Copy, PartialEq, Eq, Structural, Debug)]
pub enum Platform {
    Linux,
    MacOs,
    Windows,
    OtherUnix,
}

impl Platform {
    /// How the platform writes its paths.
    pub open spec fn path_style(self) -> Style {
        if self == Platform::Windows {
            Style::Windows
        } else {
            Style::Unix
        }
    }

    /// How the platform writes its paths.
    pub fn style(self) -> (r: Style)
        ensures
            r == self.path_style(),
    {
        if self == Platform::Windows {
            Style::Windows
        } else {
            Style::Unix
        }
    }
}

/// Where and as what the updater runs.
pub struct Host {
    pub platform: Platform,
    /// The directory for temporary files.
    pub temp_dir: String,
    /// The updater's own process.
    pub pid: u32,
}

/// What [`Host`] holds, as text.
#[verifier::ext_equal]
pub struct HostView {
    pub platform: Platform,
    pub temp_dir: Seq<char>,
    pub pid: u32,
}

impl View for Host {
    type V = HostView;

    open spec fn view(&self) -> HostView {
        HostView { platform: self.platform, temp_dir: self.temp_dir@, pid: self.pid }
    }
}

/// A program to run, with its arguments.
pub struct CommandLine {
    pub program: String,
    pub args: Vec<String>,
}

/// What [`CommandLine`] holds, as text.
#[verifier::ext_equal]
pub struct CommandView {
    pub program: Seq<char>,
    pub args: Seq<Seq<char>>,
}

impl View for CommandLine {
    type V = CommandView;

    open spec fn view(&self) -> CommandView {
        CommandView { program: self.program@, args: texts(self.args@) }
    }
}

/// Paths are written in the manner of Windows on Windows, and nowhere else.
pub proof fn law_windows_paths_on_windows(platform: Platform)
    ensures
        platform.path_style() == Style::Windows <==> platform == Platform::Windows,
{
}

} // verus!
