//! The tasks of a request: one per chunk, in the order of the chunks.

use crate::text::views;
use vstd::prelude::*;
use vstd::string::StringExecFns;

verus! {

/// A chunk bound to what its synthesis needs.
pub struct TTSTask {
    /// The place of the chunk in the text, counted from zero.
    pub id: usize,
    /// The text to synthesize.
    pub chunk: String,
    /// The voice to speak it in.
    pub voice: String,
    /// Silence in front of the audio; only the first chunk has any.
    pub initial_silence: Option<usize>,
}

/// The silence in front of chunk `id`: the request's for the first chunk,
/// none for the others.
pub open spec fn silence_for(id: nat, initial_silence: Option<usize>) -> Option<usize> {
    if id == 0 {
        initial_silence
    } else {
        None
    }
}

/// `task` is the task of chunk `id` of `chunks`.
pub open spec fn is_task_of(
    task: TTSTask,
    id: int,
    chunks: Seq<Seq<char>>,
    voice: Seq<char>,
    initial_silence: Option<usize>,
) -> bool {
    &&& task.id == id
    &&& task.chunk@ == chunks[id]
    &&& task.voice@ == voice
    &&& task.initial_silence == silence_for(id as nat, initial_silence)
}

/// The tasks of a request, one per chunk and in the same order, each
/// numbered by its place.
pub fn plan_tasks(chunks: &Vec<String>, voice: &str, initial_silence: Option<usize>) -> (tasks: Vec<
    TTSTask,
>)
    ensures
        tasks@.len() == chunks@.len(),
        forall|i: int|
            0 <= i < tasks@.len() ==> is_task_of(
                #[trigger] tasks@[i],
                i,
                views(chunks@),
                voice@,
                initial_silence,
            ),
{
    let mut tasks: Vec<TTSTask> = Vec::new();
    let mut id: usize = 0;
    while id < chunks.len()
        invariant
            id <= chunks.len(),
            tasks@.len() == id,
            forall|i: int|
                0 <= i < id ==> is_task_of(
                    #[trigger] tasks@[i],
                    i,
                    views(chunks@),
                    voice@,
                    initial_silence,
                ),
        decreases chunks.len() - id,
    {
        let task = TTSTask {
            id,
            chunk: chunks[id].clone(),
            voice: String::from_str(voice),
            initial_silence: if id == 0 {
                initial_silence
            } else {
                None
            },
        };
        tasks.push(task);
        id += 1;
    }
    tasks
}

} // verus!
