//! The ways in which composing a program fails.

use vstd::prelude::*;
use vstd::string::StringExecFns;

verus! {

/// One of the two shading stages of a material.
#[derive(Debug, Clone, Copy, PartialEq, Eq, Structural)]
pub enum Stage {
    Vertex,
    Fragment,
}

/// Why a program could not be composed. No failure is recovered from: the
/// first one ends the whole build.
#[derive(Debug)]
pub enum ProgramError {
    /// No file exists under any of the names tried for the chunk `chunk`.
    MissingChunk { chunk: String },
    /// The material has no source file for the stage.
    MissingStageFile { material: String, stage: Stage },
    /// The compiler rejected the composed sources, with `message`.
    CompileFailed { message: String, vertex_source: String, fragment_source: String },
}

/// What a `ProgramError` stands for in contracts.
pub enum ProgramErrorView {
    MissingChunk { chunk: Seq<char> },
    MissingStageFile { material: Seq<char>, stage: Stage },
    CompileFailed { message: Seq<char>, vertex_source: Seq<char>, fragment_source: Seq<char> },
}

impl View for ProgramError {
    type V = ProgramErrorView;

    open spec fn view(&self) -> ProgramErrorView {
        match self {
            ProgramError::MissingChunk { chunk } => ProgramErrorView::MissingChunk {
                chunk: chunk@,
            },
            ProgramError::MissingStageFile { material, stage } => {
                ProgramErrorView::MissingStageFile { material: material@, stage: *stage }
            },
            ProgramError::CompileFailed { message, vertex_source, fragment_source } => {
                ProgramErrorView::CompileFailed {
                    message: message@,
                    vertex_source: vertex_source@,
                    fragment_source: fragment_source@,
                }
            },
        }
    }
}

/// The word for a stage in a diagnostic.
pub open spec fn stage_word(stage: Stage) -> Seq<char> {
    match stage {
        Stage::Vertex => "vertex"@,
        Stage::Fragment => "fragment"@,
    }
}

/// The diagnostic for an error: it names the chunk that is missing; the
/// stage and the material whose file is missing; or gives the compiler's
/// message and then both composed sources in full.
pub open spec fn diagnostic(error: ProgramErrorView) -> Seq<char> {
    match error {
        ProgramErrorView::MissingChunk { chunk } => "Chunk \""@ + chunk + "\" not found!"@,
        ProgramErrorView::MissingStageFile { material, stage } => "No "@ + stage_word(stage)
            + " shader file found for \""@ + material + "\" material!"@,
        ProgramErrorView::CompileFailed { message, vertex_source, fragment_source } => message
            + "\nSource code:\n\nVertex:\n"@ + vertex_source + "\n\n\nFragment:\n"@
            + fragment_source + "\n\n"@,
    }
}

impl ProgramError {
    /// The diagnostic for this error, as a text.
    pub fn message(&self) -> (r: String)
        ensures
            r@ == diagnostic(self@),
    {
        match self {
            ProgramError::MissingChunk { chunk } => {
                let mut r = String::from_str("Chunk \"");
                r.append(chunk.as_str());
                r.append("\" not found!");
                r
            },
            ProgramError::MissingStageFile { material, stage } => {
                let mut r = String::from_str("No ");
                match stage {
                    Stage::Vertex => r.append("vertex"),
                    Stage::Fragment => r.append("fragment"),
                }
                r.append(" shader file found for \"");
                r.append(material.as_str());
                r.append("\" material!");
                r
            },
            ProgramError::CompileFailed { message, vertex_source, fragment_source } => {
                let mut r = message.clone();
                r.append("\nSource code:\n\nVertex:\n");
                r.append(vertex_source.as_str());
                r.append("\n\n\nFragment:\n");
                r.append(fragment_source.as_str());
                r.append("\n\n");
                r
            },
        }
    }
}

} // verus!
