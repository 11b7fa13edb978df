//! Debug instrumentation: the layers of the pipeline and nested timers.

use crate::text::{self, concat, concat3, decimal_of};
use vstd::prelude::*;
use vstd::string::*;

verus! {

/// Architectural layer the log line originated from.
///
/// Seven layers correspond to the seven pipeline stages:
///   L1 cmd  — command logic, working-tree scan, tree operations
///   L2 ser  — serialize / deserialize
///   L3 chk  — chunk / assemble
///   L4 cmp  — compress / decompress
///   L5 enc  — encrypt / decrypt
///   L6 pak  — pack routing + index
///   L7 sto  — store I/O
#[derive(Copy, Clone, Debug, PartialEq, Eq, Structural)]
pub enum Layer {
    L1,
    L2,
    L3,
    L4,
    L5,
    L6,
    L7,
}

impl Layer {
    pub open spec fn tag_text(self) -> Seq<char> {
        match self {
            Layer::L1 => "L1 cmd "@,
            Layer::L2 => "L2 ser "@,
            Layer::L3 => "L3 chk "@,
            Layer::L4 => "L4 cmp "@,
            Layer::L5 => "L5 enc "@,
            Layer::L6 => "L6 pak "@,
            Layer::L7 => "L7 sto "@,
        }
    }

    pub open spec fn number(self) -> int {
        match self {
            Layer::L1 => 0,
            Layer::L2 => 1,
            Layer::L3 => 2,
            Layer::L4 => 3,
            Layer::L5 => 4,
            Layer::L6 => 5,
            Layer::L7 => 6,
        }
    }

    pub open spec fn color(self) -> int {
        match self {
            Layer::L1 => 32,
            Layer::L2 => 36,
            Layer::L3 => 33,
            Layer::L4 => 35,
            Layer::L5 => 31,
            Layer::L6 => 34,
            Layer::L7 => 37,
        }
    }

    /// 7-character fixed-width tag rendered inside the log prefix.
    pub fn tag(self) -> (r: &'static str)
        ensures
            r@ == self.tag_text(),
            r@.len() == 7,
    {
        proof {
            law_tag_width(self);
        }
        match self {
            Layer::L1 => "L1 cmd ",
            Layer::L2 => "L2 ser ",
            Layer::L3 => "L3 chk ",
            Layer::L4 => "L4 cmp ",
            Layer::L5 => "L5 enc ",
            Layer::L6 => "L6 pak ",
            Layer::L7 => "L7 sto ",
        }
    }

    /// The position of the layer in the pipeline.
    pub fn idx(self) -> (r: usize)
        ensures
            r == self.number(),
    {
        match self {
            Layer::L1 => 0,
            Layer::L2 => 1,
            Layer::L3 => 2,
            Layer::L4 => 3,
            Layer::L5 => 4,
            Layer::L6 => 5,
            Layer::L7 => 6,
        }
    }

    /// ANSI SGR color code for this layer's prefix.
    pub fn color_code(self) -> (r: u8)
        ensures
            r == self.color(),
    {
        match self {
            Layer::L1 => 32,
            Layer::L2 => 36,
            Layer::L3 => 33,
            Layer::L4 => 35,
            Layer::L5 => 31,
            Layer::L6 => 34,
            Layer::L7 => 37,
        }
    }
}

/// Every tag is seven characters wide.
pub proof fn law_tag_width(l: Layer)
    ensures
        l.tag_text().len() == 7,
{
    reveal_strlit("L1 cmd ");
    reveal_strlit("L2 ser ");
    reveal_strlit("L3 chk ");
    reveal_strlit("L4 cmp ");
    reveal_strlit("L5 enc ");
    reveal_strlit("L6 pak ");
    reveal_strlit("L7 sto ");
}

/// Different layers have different positions, and different colors.
pub proof fn law_layers_distinct(a: Layer, b: Layer)
    requires
        a != b,
    ensures
        a.number() != b.number(),
        a.color() != b.color(),
{
}

/// How deeply timers are nested on a thread.
pub struct Depth {
    pub level: usize,
}

/// The current nesting depth.
pub fn depth(d: &Depth) -> (r: usize)
    ensures
        r == d.level,
{
    d.level
}

fn push_depth(d: &mut Depth)
    requires
        old(d).level < usize::MAX,
    ensures
        final(d).level == old(d).level + 1,
{
    d.level = d.level + 1;
}

fn pop_depth(d: &mut Depth)
    ensures
        final(d).level == if old(d).level == 0 { 0 } else { old(d).level - 1 },
{
    d.level = d.level.saturating_sub(1);
}

/// One line for the log.
pub struct LogLine {
    pub layer: Layer,
    pub depth: usize,
    pub text: String,
}

/// How an elapsed time is written: seconds from one second on, as `seconds`
/// writes them, else milliseconds from one millisecond on, else microseconds.
pub open spec fn elapsed_text(secs: u64, nanos: u32, seconds: Seq<char>) -> Seq<char> {
    if secs >= 1 {
        seconds + "s"@
    } else if nanos >= 1_000_000 {
        text::decimal((nanos / 1_000_000) as nat) + "ms"@
    } else {
        text::decimal((nanos / 1_000) as nat) + "us"@
    }
}

/// A time below one second is written in the larger of two units in which it is at least
/// one, if it is, rounded down.
pub proof fn law_short_times_are_rounded_down(nanos: u32, seconds: Seq<char>)
    ensures
        exists|n: nat|
            elapsed_text(0, nanos, seconds) == #[trigger] text::decimal(n) + (if nanos
                < 1_000_000 {
                "us"@
            } else {
                "ms"@
            }) && (if nanos < 1_000_000 {
                n * 1_000 <= nanos < (n + 1) * 1_000
            } else {
                n >= 1 && n * 1_000_000 <= nanos < (n + 1) * 1_000_000
            }),
{
    let n: nat = if nanos < 1_000_000 {
        (nanos / 1_000) as nat
    } else {
        (nanos / 1_000_000) as nat
    };
    assert(elapsed_text(0, nanos, seconds) == text::decimal(n) + (if nanos < 1_000_000 {
        "us"@
    } else {
        "ms"@
    }));
}

/// Writes an elapsed time. `seconds` is that time in seconds with three decimals.
pub fn fmt_elapsed(secs: u64, nanos: u32, seconds: &str) -> (r: String)
    ensures
        r@ == elapsed_text(secs, nanos, seconds@),
{
    if secs >= 1 {
        concat(seconds, "s")
    } else if nanos >= 1_000_000 {
        concat(decimal_of((nanos / 1_000_000) as u64).as_str(), "ms")
    } else {
        concat(decimal_of((nanos / 1_000) as u64).as_str(), "us")
    }
}

/// A running timer of one scope.
pub struct DebugTimer {
    pub layer: Layer,
    pub label: String,
    pub depth: usize,
}

impl DebugTimer {
    /// Starts a timer: its line stands at the current depth, and what follows
    /// is nested one level deeper.
    pub fn new_with_layer(d: &mut Depth, layer: Layer, label: String) -> (r: (DebugTimer, LogLine))
        requires
            old(d).level < usize::MAX,
        ensures
            final(d).level == old(d).level + 1,
            r.0 == (DebugTimer { layer, label, depth: old(d).level }),
            r.1.layer == layer,
            r.1.depth == old(d).level,
            r.1.text@ == label@ + ": start"@,
    {
        let at: usize = depth(d);
        let text = concat(label.as_str(), ": start");
        push_depth(d);
        (DebugTimer { layer, label, depth: at }, LogLine { layer, depth: at, text })
    }

    /// Ends the timer; `elapsed` is the time it ran, as [`fmt_elapsed`] writes it.
    pub fn finish(self, d: &mut Depth, elapsed: &str) -> (r: LogLine)
        ensures
            final(d).level == if old(d).level == 0 { 0 } else { old(d).level - 1 },
            r.layer == self.layer,
            r.depth == self.depth,
            r.text@ == self.label@ + ": end ("@ + elapsed@ + ")"@,
    {
        pop_depth(d);
        let mut text = concat3(self.label.as_str(), ": end (", elapsed);
        text.append(")");
        LogLine { layer: self.layer, depth: self.depth, text }
    }
}

} // verus!
