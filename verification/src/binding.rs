//! How the buffers of the device programs are bound.
use vstd::prelude::*;

verus! {

/// The stage of a program that reads a buffer.
#[derive(Clone, Copy, Debug, PartialEq, Eq, Structural)]
pub enum Stage {
    Compute,
    Fragment,
}

/// What a program may do with a buffer.
#[derive(Clone, Copy, Debug, PartialEq, Eq, Structural)]
pub enum Access {
    Uniform,
    Storage { read_only: bool },
}

/// One buffer of a layout: its number, and how it is used.
#[derive(Clone, Copy, Debug, PartialEq, Eq, Structural)]
pub struct Binding {
    pub binding: u32,
    pub visibility: Stage,
    pub access: Access,
}

/// A storage buffer of a compute program.
pub fn storage_entry(binding: u32, read_only: bool) -> (r: Binding)
    ensures
        r == (Binding {
            binding,
            visibility: Stage::Compute,
            access: Access::Storage { read_only },
        }),
{
    Binding { binding, visibility: Stage::Compute, access: Access::Storage { read_only } }
}

/// A uniform buffer of a compute program.
pub fn uniform_entry(binding: u32) -> (r: Binding)
    ensures
        r == (Binding { binding, visibility: Stage::Compute, access: Access::Uniform }),
{
    Binding { binding, visibility: Stage::Compute, access: Access::Uniform }
}

/// A storage buffer of a fragment program.
pub fn storage_entry_frag(binding: u32, read_only: bool) -> (r: Binding)
    ensures
        r == (Binding {
            binding,
            visibility: Stage::Fragment,
            access: Access::Storage { read_only },
        }),
{
    Binding { binding, visibility: Stage::Fragment, access: Access::Storage { read_only } }
}

/// A uniform buffer of a fragment program.
pub fn uniform_entry_frag(binding: u32) -> (r: Binding)
    ensures
        r == (Binding { binding, visibility: Stage::Fragment, access: Access::Uniform }),
{
    Binding { binding, visibility: Stage::Fragment, access: Access::Uniform }
}

/// The buffers are numbered from zero, in order, each for one stage; `uniform`
/// is the number of the parameters, and the program writes those numbered in
/// `written` and only reads the others.
pub open spec fn lays_out(
    layout: Seq<Binding>,
    stage: Stage,
    uniform: Option<int>,
    written: Set<int>,
) -> bool {
    forall|i: int|
        0 <= i < layout.len() ==> (#[trigger] layout[i]) == (Binding {
            binding: i as u32,
            visibility: stage,
            access: if uniform == Some(i) {
                Access::Uniform
            } else {
                Access::Storage { read_only: !written.contains(i) }
            },
        })
}

/// The splat program: its parameters, and the film that it adds to.
pub fn film_layout() -> (r: Vec<Binding>)
    ensures
        r@.len() == 2,
        lays_out(r@, Stage::Compute, Some(0), set![1]),
{
    vec![uniform_entry(0), storage_entry(1, false)]
}

/// The photon program: its parameters; the primitives, planes, materials and
/// tables; the film and the debug records that it writes; the depths.
pub fn photon_layout() -> (r: Vec<Binding>)
    ensures
        r@.len() == 8,
        lays_out(r@, Stage::Compute, Some(0), set![5, 6]),
{
    vec![
        uniform_entry(0),
        storage_entry(1, true),
        storage_entry(2, true),
        storage_entry(3, true),
        storage_entry(4, true),
        storage_entry(5, false),
        storage_entry(6, false),
        storage_entry(7, true),
    ]
}

/// The program that drains the film into the viewer's accumulator.
pub fn resolve_layout() -> (r: Vec<Binding>)
    ensures
        r@.len() == 2,
        lays_out(r@, Stage::Compute, None, set![0, 1]),
{
    vec![storage_entry(0, false), storage_entry(1, false)]
}

/// The program that draws the accumulator and the surface on the screen.
pub fn blit_layout() -> (r: Vec<Binding>)
    ensures
        r@.len() == 3,
        lays_out(r@, Stage::Fragment, Some(2), set![]),
{
    vec![storage_entry_frag(0, true), storage_entry_frag(1, true), uniform_entry_frag(2)]
}

} // verus!
