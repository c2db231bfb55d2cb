//! The whole way from a source text to assembly text, and the optimizer's
//! run to its fixed point.

use crate::convergence::{distance, fixed_point, lemma_fixed_point_is_fixed, lemma_pass_approaches};
use crate::optimizer;
use crate::optimizer::{pass, MaximumOptimizationReached};
use crate::parser;
use crate::parser::{error_text, parsed};
use crate::util::LabelAllocator;
use crate::vm;
use crate::x86;
use crate::x86::{assembly, lower};
use vstd::prelude::*;

verus! {

/// Optimizes a program to its fixed point: runs pass after pass until one
/// changes nothing, and returns the program that it left unchanged.
pub fn optimize(instr: Vec<vm::Instruction>) -> (converged: Vec<vm::Instruction>)
    ensures
        converged.deep_view() == fixed_point(instr.deep_view()),
        pass(converged.deep_view()) == converged.deep_view(),
{
    let ghost given = instr.deep_view();
    let mut instr = instr;
    loop
        invariant
            fixed_point(instr.deep_view()) == fixed_point(given),
        ensures
            instr.deep_view() == fixed_point(given),
        decreases distance(instr.deep_view()),
    {
        match optimizer::optimize(&instr) {
            Ok(optimized) => {
                proof {
                    lemma_pass_approaches(instr.deep_view());
                }
                instr = optimized;
            },
            Err(MaximumOptimizationReached) => {
                break ;
            },
        }
    }
    proof {
        lemma_fixed_point_is_fixed(given);
    }
    instr
}

/// Parses a source text; an error comes back in words.
pub fn parse(src: &[u8]) -> (outcome: Result<Vec<vm::Instruction>, String>)
    ensures
        match parsed(src@) {
            Ok(code) => outcome matches Ok(instr) && instr.deep_view() == code,
            Err(error) => outcome matches Err(message) && message@ == error_text(error),
        },
{
    match parser::parse(src) {
        Ok(instr) => Ok(instr),
        Err(e) => Err(e.to_text()),
    }
}

/// The assembly text that a source text compiles to when the counter of
/// identifiers stands at `count`: the program is parsed, optimized to its
/// fixed point, lowered and written out. A source that is no program gives
/// the parser's error.
pub open spec fn compiled(source: Seq<u8>, count: int) -> Result<Seq<char>, parser::ParserError> {
    match parsed(source) {
        Ok(code) => Ok(assembly(lower(fixed_point(code), count))),
        Err(error) => Err(error),
    }
}

/// Compiles a source text to assembly text: parses it, optimizes the
/// program to its fixed point, lowers it with identifiers from `labels`
/// and writes it out. A source that is no program gives the parser's
/// error, in words.
pub fn compile_x86(src: &[u8], labels: &LabelAllocator) -> (outcome: Result<String, String>)
    ensures
        match parsed(src@) {
            Ok(_) => outcome matches Ok(out) && exists|first: usize|
                compiled(src@, first as int) == Ok::<Seq<char>, parser::ParserError>(out@),
            Err(error) => outcome matches Err(message) && message@ == error_text(error),
        },
{
    let instr = match parse(src) {
        Ok(instr) => instr,
        Err(message) => {
            return Err(message);
        },
    };
    let instr = optimize(instr);
    let ghost converged = instr.deep_view();
    let x86instr = x86::compile(instr, labels);
    let ghost lowered = x86instr.deep_view();
    let text = x86::generate_asm(x86instr);
    proof {
        let first = choose|first: usize| lowered == lower(converged, first as int);
        assert(compiled(src@, first as int) == Ok::<Seq<char>, parser::ParserError>(text@));
    }
    Ok(text)
}

} // verus!
