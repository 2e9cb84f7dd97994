//! The CPU reference parser: the same tape format as the GPU path, built by
//! a sequential scan. Kept apart from `crate::parse` so that nobody takes
//! its speed for the GPU's.

use vstd::prelude::*;

use crate::tape::builder::{build_spec, lemma_built_tape_wf};
use crate::tape::document::single_value_spec;
use crate::tape::text::push_all;
pub use crate::tape::Mode;
use crate::tape::{build_tape_cpu, Document, Error};

verus! {

/// What `parse` yields for `input`: the built tape's arrays and depth, or
/// the builder's error, or `NotSingleValue` for a standard-mode input that
/// is not exactly one value.
pub open spec fn cpu_parse_spec(input: Seq<u8>, mode: Mode) -> Result<
    (Seq<i32>, Seq<i32>, int),
    Error,
> {
    match build_spec(input, mode) {
        Err(e) => Err(e),
        Ok((s, p, d)) => if mode == Mode::Standard && !single_value_spec(input, s, p) {
            Err(Error::NotSingleValue)
        } else {
            Ok((s, p, d))
        },
    }
}

/// Parse `input` on the CPU into a `Document` over a copy of it. A
/// successful result is always a well-formed document.
pub fn parse(input: &[u8], mode: Mode) -> (res: Result<Document, Error>)
    requires
        input.len() < i32::MAX,
    ensures
        match res {
            Ok(doc) => {
                &&& doc.input@ == input@
                &&& cpu_parse_spec(input@, mode) == Ok::<(Seq<i32>, Seq<i32>, int), Error>(
                    (doc.tape.structural@, doc.tape.pair_pos@, doc.tape.depth as int),
                )
                &&& doc.wf()
            },
            Err(e) => cpu_parse_spec(input@, mode) == Err::<(Seq<i32>, Seq<i32>, int), Error>(e),
        },
{
    let tape = build_tape_cpu(input, mode)?;
    let mut bytes: Vec<u8> = Vec::new();
    push_all(&mut bytes, input);
    let doc = Document::new(bytes, tape);
    proof {
        lemma_built_tape_wf(&doc, mode);
    }
    if mode == Mode::Standard && !doc.is_single_value() {
        return Err(Error::NotSingleValue);
    }
    Ok(doc)
}

} // verus!
