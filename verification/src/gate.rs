//! The records a logic gate is made of.

use std::collections::HashMap;
use vstd::prelude::*;

use crate::signal::State;
use crate::signal::Transition;

verus! {

/// The least and the greatest number of inputs (or outputs) a gate may have.
/// A gate whose `min` equals its `max` has a fixed arity.
#[derive(Debug, Copy, Clone, PartialEq, Eq, Structural)]
pub struct NodeRange {
    pub min: u32,
    pub max: u32,
}

/// The arity of a logic gate: how many inputs and outputs it has now, and
/// the ranges within which these numbers may change.
#[derive(Debug, Copy, Clone, PartialEq, Eq, Structural)]
pub struct Gate {
    pub inputs: u32,
    pub outputs: u32,
    pub in_range: NodeRange,
    pub out_range: NodeRange,
}

/// The name of a gate.
pub struct Name(pub String);

/// Input values of a gate, one per input slot.
pub struct Inputs(pub Vec<State>);

/// Output values of a gate, one per output slot.
pub struct Outputs(pub Vec<State>);

/// The rules of a gate, one per output slot.
pub struct Transitions(pub Vec<Transition>);

/// Maps a gate to those of its input slots that one output feeds.
pub type TargetMap = HashMap<usize, Vec<usize>>;

/// The fan-out of a gate: one map per output slot, from each gate fed by
/// that output to the input slots fed on it.
pub struct Targets(pub Vec<TargetMap>);

impl NodeRange {
    /// Whether `n` lies within the range, bounds included.
    pub open spec fn holds(self, n: int) -> bool {
        self.min <= n <= self.max
    }

    /// Tells whether `n` lies within the range, bounds included.
    pub fn contains(&self, n: u32) -> (r: bool)
        ensures
            r == self.holds(n as int),
    {
        self.min <= n && n <= self.max
    }
}

impl Gate {
    /// Tells whether the number of inputs can change at all.
    pub fn is_resizable(&self) -> (r: bool)
        ensures
            r == (self.in_range.min != self.in_range.max),
    {
        self.in_range.min != self.in_range.max
    }

    /// The input count to ask for when one input is to be taken away, if
    /// this gate can still lose one.
    pub fn fewer_inputs(&self) -> (r: Option<u32>)
        ensures
            r == (if self.in_range.min != self.in_range.max && self.inputs > self.in_range.min {
                Some((self.inputs - 1) as u32)
            } else {
                None
            }),
    {
        if self.in_range.min != self.in_range.max && self.inputs > self.in_range.min {
            Some(self.inputs - 1)
        } else {
            None
        }
    }

    /// The input count to ask for when one input is to be added, if
    /// this gate can still take one.
    pub fn more_inputs(&self) -> (r: Option<u32>)
        ensures
            r == (if self.in_range.min != self.in_range.max && self.inputs < self.in_range.max {
                Some((self.inputs + 1) as u32)
            } else {
                None
            }),
    {
        if self.in_range.min != self.in_range.max && self.inputs < self.in_range.max {
            Some(self.inputs + 1)
        } else {
            None
        }
    }
}

} // verus!
