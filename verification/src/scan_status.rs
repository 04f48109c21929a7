//! The state of the running scan as the instrument reports it, and where
//! the scan line currently is.
use vstd::prelude::*;

verus! {

/// Which way the frame is being scanned.
#[derive(Clone, Copy, PartialEq, Eq, Structural, Debug)]
pub enum ScanDir {
    Up,
    Down,
}

/// Which way a scan line is being traced.
#[derive(Clone, Copy, PartialEq, Eq, Structural, Debug)]
pub enum LineDir {
    Forward,
    Backward,
}

/// The other line direction.
pub open spec fn toggled(d: LineDir) -> LineDir {
    match d {
        LineDir::Forward => LineDir::Backward,
        LineDir::Backward => LineDir::Forward,
    }
}

/// Switches between forward and backward.
pub fn toggle_dir(line_dir: &mut LineDir)
    ensures
        *final(line_dir) == toggled(*old(line_dir)),
{
    match line_dir {
        LineDir::Forward => *line_dir = LineDir::Backward,
        LineDir::Backward => *line_dir = LineDir::Forward,
    }
}

impl LineDir {
    /// The name shown for the direction.
    pub fn label(&self) -> (r: &'static str)
        ensures
            r@ == (match *self {
                LineDir::Forward => "Forward"@,
                LineDir::Backward => "Backward"@,
            }),
    {
        match self {
            LineDir::Forward => "Forward",
            LineDir::Backward => "Backward",
        }
    }

    /// The directions offered, in order.
    pub fn options() -> (r: Vec<LineDir>)
        ensures
            r@ == seq![LineDir::Forward, LineDir::Backward],
    {
        let r = vec![LineDir::Forward, LineDir::Backward];
        assert(r@ =~= seq![LineDir::Forward, LineDir::Backward]);
        r
    }
}

/// Toggling twice gives back the direction.
pub proof fn lemma_toggle_twice(d: LineDir)
    ensures
        toggled(toggled(d)) == d,
{
}

/// The scan state: frame and line direction, the last finished line, and
/// whether a scan is running.
#[derive(Clone, Copy, PartialEq, Eq, Structural, Debug)]
pub struct ScanStatus {
    pub scan_dir: ScanDir,
    pub line_dir: LineDir,
    pub line_number: u32,
    pub scanning: bool,
}

/// Where the scan line is, for a frame of `rows` rows: at `line`, the
/// position measured down the frame unless `flipped` (scanning up).
#[derive(Clone, Copy, PartialEq, Eq, Structural, Debug)]
pub struct ScanLine {
    pub line: u32,
    pub rows: u32,
    pub flipped: bool,
}

/// The line shown for `status` when the `line_dir` trace is displayed: none
/// when not scanning or past the last row; a backward trace lags one line
/// behind a forward scan.
pub open spec fn scan_line_of(status: ScanStatus, scan_size: Seq<u32>, line_dir: LineDir) -> Option<ScanLine> {
    let line = if line_dir == LineDir::Backward && status.line_dir == LineDir::Forward {
        if status.line_number > 0 { (status.line_number - 1) as u32 } else { 0u32 }
    } else {
        status.line_number
    };
    if !status.scanning || line == scan_size[1] {
        None
    } else {
        Some(ScanLine { line, rows: scan_size[1], flipped: status.scan_dir == ScanDir::Up })
    }
}

impl ScanStatus {
    /// Not scanning: down the frame, forward, line zero.
    pub fn new() -> (s: Self)
        ensures
            s == (ScanStatus { scan_dir: ScanDir::Down, line_dir: LineDir::Forward, line_number: 0, scanning: false }),
    {
        ScanStatus { scan_dir: ScanDir::Down, line_dir: LineDir::Forward, line_number: 0, scanning: false }
    }

    /// The line to draw for the `line_dir` trace, as `scan_line_of` says.
    pub fn scan_line(&self, scan_size: [u32; 2], line_dir: LineDir) -> (r: Option<ScanLine>)
        ensures
            r == scan_line_of(*self, scan_size@, line_dir),
    {
        if !self.scanning {
            return None;
        }
        let mut line_number = self.line_number;
        if line_dir == LineDir::Backward && self.line_dir == LineDir::Forward {
            line_number = line_number.saturating_sub(1);
        }
        let num_rows = scan_size[1];
        if line_number == num_rows {
            return None;
        }
        Some(ScanLine { line: line_number, rows: num_rows, flipped: self.scan_dir == ScanDir::Up })
    }

    /// Records the end of a line reported by the controller: `traced` is the
    /// direction of a scan line, or `None` when the movement was not a scan
    /// line. Returns the new status, whether it changed, and the direction
    /// to pass on. A scan line with a new number or direction marks the scan
    /// as running.
    pub fn line_finished(&self, traced: Option<LineDir>, line_number: u32) -> (r: (ScanStatus, bool, Option<LineDir>))
        ensures
            match traced {
                None => r == (*self, false, None::<LineDir>),
                Some(dir) => {
                    let changed = self.line_number != line_number || self.line_dir != dir;
                    &&& r.1 == changed
                    &&& r.2 == Some(dir)
                    &&& changed ==> r.0 == (ScanStatus {
                        scan_dir: self.scan_dir,
                        line_dir: dir,
                        line_number,
                        scanning: true,
                    })
                    &&& !changed ==> r.0 == *self
                },
            },
    {
        match traced {
            None => (*self, false, None),
            Some(dir) => {
                let changed = self.line_number != line_number || self.line_dir != dir;
                if changed {
                    (ScanStatus { scan_dir: self.scan_dir, line_dir: dir, line_number, scanning: true }, true, Some(dir))
                } else {
                    (*self, false, Some(dir))
                }
            },
        }
    }
}

impl Default for ScanStatus {
    fn default() -> (s: Self)
        ensures
            s == (ScanStatus { scan_dir: ScanDir::Down, line_dir: LineDir::Forward, line_number: 0, scanning: false }),
    {
        ScanStatus::new()
    }
}

} // verus!
