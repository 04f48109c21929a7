//! Coarse positioning: turning a step count per axis into motor commands
//! and into the staircase of intermediate step positions that is drawn as
//! a preview.
use vstd::prelude::*;

verus! {

/// The direction of a coarse motor move.
#[derive(Clone, Copy, PartialEq, Eq, Structural, Debug)]
pub enum MotorDir {
    XPos,
    XNeg,
    YPos,
    YNeg,
}

/// A whole number of coarse steps along each axis.
#[derive(Clone, Copy, PartialEq, Eq, Structural, Debug)]
pub struct Steps {
    pub x: i32,
    pub y: i32,
}

/// The magnitude of `v`.
pub open spec fn abs(v: int) -> int {
    if v < 0 { -v } else { v }
}

/// The sign of `v`: -1, 0 or 1.
pub open spec fn signum(v: int) -> int {
    if v > 0 { 1 } else if v < 0 { -1 } else { 0 }
}

/// The motor command moving `v` steps along one axis: none for zero, else
/// the positive or negative direction with the magnitude taken modulo 2^16,
/// as the command's step count is sixteen bits wide.
pub open spec fn axis_command(v: int, pos: MotorDir, neg: MotorDir) -> Option<(MotorDir, u16)> {
    if v == 0 {
        None
    } else if v > 0 {
        Some((pos, (abs(v) % 65536) as u16))
    } else {
        Some((neg, (abs(v) % 65536) as u16))
    }
}

/// The command for one axis.
fn axis_args(v: i32, pos: MotorDir, neg: MotorDir) -> (r: Option<(MotorDir, u16)>)
    requires
        v != i32::MIN,
    ensures
        r == axis_command(v as int, pos, neg),
{
    if v == 0 {
        None
    } else {
        let a: i32 = if v < 0 { -v } else { v };
        let n = a as u32 as u16;
        assert(n as int == (a as int) % 65536) by (bit_vector)
            requires
                a >= 0,
                n == a as u32 as u16,
        ;
        if v > 0 {
            Some((pos, n))
        } else {
            Some((neg, n))
        }
    }
}

/// The motor commands for a move: the X command, then the Y command.
pub fn move_args_from_steps(steps: Steps) -> (r: [Option<(MotorDir, u16)>; 2])
    requires
        steps.x != i32::MIN,
        steps.y != i32::MIN,
    ensures
        r[0] == axis_command(steps.x as int, MotorDir::XPos, MotorDir::XNeg),
        r[1] == axis_command(steps.y as int, MotorDir::YPos, MotorDir::YNeg),
        steps.x > 0 ==> r[0] is Some && r[0].unwrap().0 == MotorDir::XPos,
        steps.x < 0 ==> r[0] is Some && r[0].unwrap().0 == MotorDir::XNeg,
        steps.x == 0 ==> r[0] is None,
        steps.y > 0 ==> r[1] is Some && r[1].unwrap().0 == MotorDir::YPos,
        steps.y < 0 ==> r[1] is Some && r[1].unwrap().0 == MotorDir::YNeg,
        steps.y == 0 ==> r[1] is None,
        r[0] is Some ==> r[0].unwrap().1 as int == abs(steps.x as int) % 65536,
        r[1] is Some ==> r[1].unwrap().1 as int == abs(steps.y as int) % 65536,
{
    let x_args = axis_args(steps.x, MotorDir::XPos, MotorDir::XNeg);
    let y_args = axis_args(steps.y, MotorDir::YPos, MotorDir::YNeg);
    [x_args, y_args]
}

/// A move goes the way its step count points: a positive count drives the
/// axis's positive direction, a negative one its negative direction, by
/// the count's magnitude (modulo 2^16), and zero drives nothing.  This holds
/// for X with `XPos`/`XNeg` and for Y with `YPos`/`YNeg`.
pub proof fn lemma_step_directions(v: int)
    ensures
        v > 0 ==> axis_command(v, MotorDir::XPos, MotorDir::XNeg) == Some((MotorDir::XPos, (v % 65536) as u16)),
        v < 0 ==> axis_command(v, MotorDir::XPos, MotorDir::XNeg) == Some((MotorDir::XNeg, ((-v) % 65536) as u16)),
        v > 0 ==> axis_command(v, MotorDir::YPos, MotorDir::YNeg) == Some((MotorDir::YPos, (v % 65536) as u16)),
        v < 0 ==> axis_command(v, MotorDir::YPos, MotorDir::YNeg) == Some((MotorDir::YNeg, ((-v) % 65536) as u16)),
        v == 0 ==> axis_command(v, MotorDir::XPos, MotorDir::XNeg) is None && axis_command(
            v,
            MotorDir::YPos,
            MotorDir::YNeg,
        ) is None,
{
}

/// Whether a move of `steps` can be started: it goes somewhere along some
/// axis.
pub fn can_execute(steps: Steps) -> (r: bool)
    requires
        steps.x != i32::MIN,
        steps.y != i32::MIN,
    ensures
        r == (steps.x != 0 || steps.y != 0),
{
    steps.x != 0 || steps.y != 0
}

/// Which axes a finished move can calibrate: a move along X alone
/// calibrates X, one along Y alone calibrates Y (a move of nothing could
/// calibrate either).
pub fn calibration_axes(steps: Steps) -> (r: (bool, bool))
    ensures
        r == (steps.y == 0, steps.x == 0),
{
    (steps.y == 0, steps.x == 0)
}

/// The positions passed when walking from 0 to `end` in unit steps,
/// excluding 0 and including `end`.
pub open spec fn unit_walk(end: int) -> Seq<int> {
    Seq::new(abs(end) as nat, |k: int| (k + 1) * signum(end))
}

/// The staircase from the origin to `steps`: first along X, then along Y,
/// one step at a time; the origin itself is not listed.
pub open spec fn course_path(steps: Steps) -> Seq<(int, int)> {
    unit_walk(steps.x as int).map_values(|x: int| (x, 0int)) + unit_walk(steps.y as int).map_values(
        |y: int| (steps.x as int, y),
    )
}

/// The positions from 0 to `end` in unit steps, as `unit_walk` says.
pub fn integer_iter(end: i32) -> (r: Vec<i32>)
    requires
        end != i32::MIN,
    ensures
        r@.len() == abs(end as int),
        forall|k: int| 0 <= k < r@.len() ==> r@[k] == unit_walk(end as int)[k],
{
    let del: i32 = if end > 0 { 1 } else if end < 0 { -1 } else { 0 };
    let n: i32 = if end < 0 { -end } else { end };
    let mut r: Vec<i32> = Vec::new();
    let mut v: i32 = 0;
    while v < n
        invariant
            0 <= v <= n,
            n == abs(end as int),
            del == signum(end as int),
            r@.len() == v,
            forall|k: int| 0 <= k < v ==> r@[k] == (k + 1) * del,
        decreases n - v,
    {
        assert(-n <= (v + 1) * del <= n) by (nonlinear_arith)
            requires
                0 <= v < n,
                -1 <= del <= 1,
        ;
        r.push((v + 1) * del);
        v = v + 1;
    }
    r
}

/// The staircase of step positions from the origin to `steps`, as
/// `course_path` says.
pub fn course_path_iter(steps: Steps) -> (r: Vec<(i32, i32)>)
    requires
        steps.x != i32::MIN,
        steps.y != i32::MIN,
    ensures
        r@.len() == course_path(steps).len(),
        forall|k: int|
            0 <= k < r@.len() ==> r@[k].0 == course_path(steps)[k].0 && r@[k].1 == course_path(steps)[k].1,
{
    let xs = integer_iter(steps.x);
    let ys = integer_iter(steps.y);
    let ghost path = course_path(steps);
    let ghost nx = xs@.len();
    let mut r: Vec<(i32, i32)> = Vec::new();
    let mut i: usize = 0;
    while i < xs.len()
        invariant
            nx == xs@.len(),
            nx == unit_walk(steps.x as int).len(),
            path == course_path(steps),
            i <= nx,
            r@.len() == i,
            forall|k: int| 0 <= k < nx ==> xs@[k] == unit_walk(steps.x as int)[k],
            forall|k: int| 0 <= k < i ==> r@[k].0 == path[k].0 && r@[k].1 == path[k].1,
        decreases nx - i,
    {
        assert(path[i as int] == (unit_walk(steps.x as int)[i as int], 0int));
        r.push((xs[i], 0));
        i = i + 1;
    }
    let mut j: usize = 0;
    while j < ys.len()
        invariant
            nx == xs@.len(),
            nx == unit_walk(steps.x as int).len(),
            path == course_path(steps),
            j <= ys@.len(),
            r@.len() == nx + j,
            forall|k: int| 0 <= k < ys@.len() ==> ys@[k] == unit_walk(steps.y as int)[k],
            ys@.len() == unit_walk(steps.y as int).len(),
            forall|k: int| 0 <= k < nx + j ==> r@[k].0 == path[k].0 && r@[k].1 == path[k].1,
        decreases ys@.len() - j,
    {
        assert(path[nx + j] == (steps.x as int, unit_walk(steps.y as int)[j as int]));
        r.push((steps.x, ys[j]));
        j = j + 1;
    }
    r
}

/// The staircase ends at the target, and each position is one unit step
/// from the one before it (the first from the origin).
pub proof fn lemma_course_path_steps(steps: Steps)
    ensures
        course_path(steps).len() == abs(steps.x as int) + abs(steps.y as int),
        course_path(steps).len() > 0 ==> course_path(steps).last() == (steps.x as int, steps.y as int),
        forall|k: int|
            0 <= k < course_path(steps).len() ==> {
                let prev = if k == 0 { (0int, 0int) } else { course_path(steps)[k - 1] };
                let cur = #[trigger] course_path(steps)[k];
                abs(cur.0 - prev.0) + abs(cur.1 - prev.1) == 1
            },
{
    let p = course_path(steps);
    let nx = abs(steps.x as int);
    let ny = abs(steps.y as int);
    let sx = signum(steps.x as int);
    let sy = signum(steps.y as int);
    assert(nx * sx == steps.x);
    assert(ny * sy == steps.y);
    assert forall|k: int| 0 <= k < p.len() implies {
        let prev = if k == 0 { (0int, 0int) } else { p[k - 1] };
        let cur = #[trigger] p[k];
        abs(cur.0 - prev.0) + abs(cur.1 - prev.1) == 1
    } by {
        if k < nx {
            assert(p[k] == ((k + 1) * sx, 0int));
            if k > 0 {
                assert(p[k - 1] == (k * sx, 0int));
            }
            assert((k + 1) * sx - k * sx == sx) by (nonlinear_arith);
        } else {
            let m = k - nx;
            assert(p[k] == (steps.x as int, (m + 1) * sy));
            if m > 0 {
                assert(p[k - 1] == (steps.x as int, m * sy));
            } else if k > 0 {
                assert(p[k - 1] == (nx * sx, 0int));
            }
            assert((m + 1) * sy - m * sy == sy) by (nonlinear_arith);
        }
    }
    if p.len() > 0 {
        if ny > 0 {
            assert(p.last() == (steps.x as int, ny * sy));
        } else {
            assert(p.last() == (nx * sx, 0int));
        }
    }
}

} // verus!
