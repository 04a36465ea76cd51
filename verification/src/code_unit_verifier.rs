//! Orchestration: run the reference-safety analysis over every function
//! of a compiled module, or over the single main function of a script.

use crate::absint::verify_function;
use crate::code::{FunctionContext, PartialVMError, StatusCode};
use vstd::prelude::*;

verus! {

/// A compiled module as the analysis sees it: its function definitions,
/// each already reduced to the inputs of the analysis. A function without
/// code is native and has nothing to verify.
#[derive(Debug)]
pub struct CompiledModule {
    pub function_defs: Vec<FunctionContext>,
}

/// A compiled script: one main function.
#[derive(Debug)]
pub struct CompiledScript {
    pub main: FunctionContext,
}

/// Checks the function bodies of modules and scripts for reference
/// safety.
#[derive(Debug)]
pub struct CodeUnitVerifier;

impl CodeUnitVerifier {
    /// Verify every function definition of a module, stopping at the
    /// first function that fails; native functions are skipped.
    pub fn verify_module(module: &CompiledModule) -> (r: Result<(), PartialVMError>)
        ensures
            module.function_defs@.len() == 0 ==> r is Ok,
            r matches Err(e) ==> exists|i: int|
                0 <= i < module.function_defs@.len() && e.function == (
                #[trigger] module.function_defs@[i]).index,
    {
        let n = module.function_defs.len();
        let mut i: usize = 0;
        while i < n
            invariant
                n == module.function_defs@.len(),
                0 <= i <= n,
            decreases n - i,
        {
            match Self::verify_function(&module.function_defs[i]) {
                Ok(_) => {},
                Err(e) => {
                    proof {
                        assert(e.function == module.function_defs@[i as int].index);
                    }
                    return Err(e);
                },
            }
            i += 1;
        }
        Ok(())
    }

    /// Verify the main function of a script.
    pub fn verify_script(script: &CompiledScript) -> (r: Result<(), PartialVMError>)
        ensures
            r matches Err(e) ==> e.function == script.main.index,
    {
        Self::verify_function(&script.main)
    }

    /// Verify one function definition. A function without code is native
    /// and passes; one whose signatures or body exceed the offset space
    /// cannot have come from a well-formed binary and is rejected.
    pub fn verify_function(ctx: &FunctionContext) -> (r: Result<(), PartialVMError>)
        ensures
            ctx.code@.len() == 0 ==> r is Ok,
            r matches Err(e) ==> e.function == ctx.index,
    {
        if ctx.code.len() == 0 {
            return Ok(());
        }
        if ctx.code.len() > 65535 {
            return Err(
                PartialVMError {
                    status: StatusCode::UnknownInvariantViolationError,
                    function: ctx.index,
                    offset: 0,
                },
            );
        }
        if ctx.parameters.len() > 65535 || ctx.locals.len() > 65535 - ctx.parameters.len() {
            return Err(
                PartialVMError {
                    status: StatusCode::UnknownInvariantViolationError,
                    function: ctx.index,
                    offset: 0,
                },
            );
        }
        verify_function(ctx)
    }
}

} // verus!
