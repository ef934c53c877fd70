//! Handwritten notes: the tools, the paper, the pen sample phases, and the
//! pen capture switch.

use vstd::prelude::*;

use crate::text::{chars_of, string_of};

verus! {

/// What the pen does on the surface.
#[derive(Debug, Clone, Copy, PartialEq, Eq, Structural)]
pub enum Tool {
    Pen,
    /// Translucent, uniform-width, and drawn behind writing.
    Highlighter,
    Eraser,
    /// Circle strokes to select them, then drag to move or delete.
    Lasso,
}

/// How much of a stroke the eraser takes.
#[derive(Debug, Clone, Copy, PartialEq, Eq, Structural)]
pub enum EraserMode {
    /// Rub out only the part under the tip, splitting what is left.
    Partial,
    /// Take the whole stroke at a touch.
    Stroke,
}

impl Default for EraserMode {
    fn default() -> (m: EraserMode)
        ensures
            m == EraserMode::Partial,
    {
        EraserMode::Partial
    }
}

/// What kind of mark a stroke is.
#[derive(Debug, Clone, Copy, PartialEq, Eq, Structural)]
pub enum StrokeKind {
    Pen,
    Highlighter,
}

impl Default for StrokeKind {
    fn default() -> (k: StrokeKind)
        ensures
            k == StrokeKind::Pen,
    {
        StrokeKind::Pen
    }
}

/// Background ruling drawn under the ink.
#[derive(Debug, Clone, Copy, PartialEq, Eq, Structural)]
pub enum PaperStyle {
    Plain,
    Ruled,
    Grid,
    /// The default: dots guide handwriting without ruling it.
    Dotted,
}

impl Default for PaperStyle {
    fn default() -> (p: PaperStyle)
        ensures
            p == PaperStyle::Dotted,
    {
        PaperStyle::Dotted
    }
}

/// The label the paper picker shows for each style.
pub open spec fn paper_label(p: PaperStyle) -> Seq<char> {
    match p {
        PaperStyle::Plain => "Plain"@,
        PaperStyle::Ruled => "Ruled"@,
        PaperStyle::Grid => "Grid"@,
        PaperStyle::Dotted => "Dots"@,
    }
}

impl PaperStyle {
    /// Every style with its label, in picker order.
    pub fn all() -> (styles: Vec<(String, PaperStyle)>)
        ensures
            styles@.len() == 4,
            styles@[0].1 == PaperStyle::Plain,
            styles@[1].1 == PaperStyle::Ruled,
            styles@[2].1 == PaperStyle::Grid,
            styles@[3].1 == PaperStyle::Dotted,
            forall|i: int| 0 <= i < 4 ==> (#[trigger] styles@[i]).0@ == paper_label(styles@[i].1),
    {
        let mut v: Vec<(String, PaperStyle)> = Vec::new();
        v.push((string_of(&chars_of("Plain")), PaperStyle::Plain));
        v.push((string_of(&chars_of("Ruled")), PaperStyle::Ruled));
        v.push((string_of(&chars_of("Grid")), PaperStyle::Grid));
        v.push((string_of(&chars_of("Dots")), PaperStyle::Dotted));
        v
    }
}

/// Where a sample sits in a stroke's lifecycle.
#[derive(Debug, Clone, Copy, PartialEq, Eq, Structural)]
pub enum PenPhase {
    /// Pen touched down: start a new stroke.
    Down,
    /// Pen moved while down.
    Move,
    /// Pen lifted: commit the stroke.
    Up,
    /// Pen is in range but not touching.
    Hover,
    /// Pen left hover range, so any aiming indicator should disappear.
    Leave,
}

/// What installing the pen hook on a window needs.
#[derive(Debug, Clone, Copy, PartialEq, Eq, Structural)]
pub enum InstallStep {
    /// The window handle is null; nothing can be hooked.
    Reject,
    /// The hook is already on this window.
    AlreadyHooked,
    /// The platform hook has to be installed on the window.
    CallPlatform,
}

/// Whether pen input is being claimed, whether a platform hook is installed,
/// and the window it is attached to (zero for none).
#[derive(Debug)]
pub struct PenCapture {
    capturing: bool,
    installed: bool,
    hooked_window: u64,
}

impl PenCapture {
    /// A window is only ever hooked by an install that succeeded.
    #[verifier::type_invariant]
    spec fn hooked_only_when_installed(&self) -> bool {
        self.hooked_window != 0 ==> self.installed
    }

    /// The capture flag.
    pub closed spec fn capturing_spec(&self) -> bool {
        self.capturing
    }

    /// The installed flag.
    pub closed spec fn installed_spec(&self) -> bool {
        self.installed
    }

    /// The hooked window (zero for none).
    pub closed spec fn window_spec(&self) -> u64 {
        self.hooked_window
    }

    /// Nothing hooked, nothing captured.
    pub fn new() -> (p: PenCapture)
        ensures
            !p.capturing_spec(),
            !p.installed_spec(),
            p.window_spec() == 0,
    {
        PenCapture { capturing: false, installed: false, hooked_window: 0 }
    }

    /// Whether the hook should claim pen messages.
    pub fn is_capturing(&self) -> (r: bool)
        ensures
            r == self.capturing_spec(),
    {
        self.capturing
    }

    /// Start or stop claiming pen input.
    pub fn set_capturing(&mut self, enabled: bool)
        ensures
            final(self).capturing_spec() == enabled,
            final(self).installed_spec() == old(self).installed_spec(),
            final(self).window_spec() == old(self).window_spec(),
    {
        proof {
            use_type_invariant(&*self);
        }
        self.capturing = enabled;
    }

    /// Whether pen capture was successfully installed for a window.
    pub fn is_available(&self) -> (r: bool)
        ensures
            r == self.installed_spec(),
            self.window_spec() != 0 ==> r,
    {
        proof {
            use_type_invariant(self);
        }
        self.installed
    }

    /// What installing on `raw_window_id` takes: nothing for a null handle
    /// or the window already hooked, the platform hook otherwise.
    pub fn plan_install(&self, raw_window_id: u64) -> (step: InstallStep)
        ensures
            step == (if raw_window_id == 0 {
                InstallStep::Reject
            } else if raw_window_id == self.window_spec() {
                InstallStep::AlreadyHooked
            } else {
                InstallStep::CallPlatform
            }),
    {
        if raw_window_id == 0 {
            InstallStep::Reject
        } else if raw_window_id == self.hooked_window {
            InstallStep::AlreadyHooked
        } else {
            InstallStep::CallPlatform
        }
    }

    /// Install the pen hook on `raw_window_id`, given what the platform hook
    /// answered (consulted only when [`PenCapture::plan_install`] says
    /// `CallPlatform`). A null handle is refused; the window already hooked
    /// is a no-op; otherwise a successful platform install moves the hook to
    /// this window, and a failure is reported unchanged.
    pub fn install(&mut self, raw_window_id: u64, platform: Result<(), String>) -> (r: Result<
        (),
        String,
    >)
        ensures
            raw_window_id == 0 ==> (r matches Err(e) && e@ == "window handle was null"@),
            raw_window_id == 0 ==> *final(self) == *old(self),
            raw_window_id != 0 && raw_window_id == old(self).window_spec() ==> r is Ok
                && *final(self) == *old(self),
            raw_window_id != 0 && raw_window_id != old(self).window_spec() ==> match platform {
                Ok(()) => r is Ok && final(self).window_spec() == raw_window_id
                    && final(self).installed_spec() && final(self).capturing_spec() == old(
                    self,
                ).capturing_spec(),
                Err(e) => r == Err::<(), String>(e) && *final(self) == *old(self),
            },
            final(self).installed_spec() == (old(self).installed_spec() || r is Ok),
    {
        proof {
            use_type_invariant(&*self);
        }
        if raw_window_id == 0 {
            return Err(string_of(&chars_of("window handle was null")));
        }
        if self.hooked_window == raw_window_id {
            return Ok(());
        }
        match platform {
            Ok(()) => {
                self.installed = true;
                self.hooked_window = raw_window_id;
                Ok(())
            },
            Err(e) => Err(e),
        }
    }
}

/// The error a platform without a pen hook reports.
pub fn unsupported_platform_error() -> (e: String)
    ensures
        e@ == "Handwriting input is only implemented on Windows"@,
{
    string_of(&chars_of("Handwriting input is only implemented on Windows"))
}

} // verus!
