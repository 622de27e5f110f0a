use vstd::prelude::*;

verus! {

/// The shader program currently in use, so that drawing code anywhere can
/// find it.
pub struct ShaderState {
    current_program: u32,
}

impl View for ShaderState {
    type V = u32;

    closed spec fn view(&self) -> u32 {
        self.current_program
    }
}

impl ShaderState {
    /// No program (0) is current at first.
    pub fn new() -> (s: Self)
        ensures
            s@ == 0,
    {
        ShaderState { current_program: 0 }
    }
}

/// Records `program` as the current shader program.
pub fn set_current_program(state: &mut ShaderState, program: u32)
    ensures
        final(state)@ == program,
{
    state.current_program = program;
}

/// The shader program recorded last.
pub fn get_current_program(state: &ShaderState) -> (program: u32)
    ensures
        program == state@,
{
    state.current_program
}

} // verus!
