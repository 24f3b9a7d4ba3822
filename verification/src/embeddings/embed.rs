//! Prompt prefixes of the on-device embedding model: queries and titled documents.
use vstd::prelude::*;

use crate::text::{push_str, strings_view, to_string};

verus! {

/// Task type for prompt prefix injection
#[derive(Debug, Clone, Copy, PartialEq, Eq, Structural)]
pub enum TaskType {
    /// Query for retrieval: "task: search result | query: {content}"
    RetrievalQuery,
    /// Document for retrieval: "title: {title} | text: {content}"
    RetrievalDocument,
}

pub open spec fn query_prompt(content: Seq<char>) -> Seq<char> {
    seq![
        't', 'a', 's', 'k', ':', ' ', 's', 'e', 'a', 'r', 'c', 'h', ' ', 'r', 'e', 's', 'u', 'l', 't',
        ' ', '|', ' ', 'q', 'u', 'e', 'r', 'y', ':', ' ',
    ] + content
}

pub open spec fn document_prompt(title: Seq<char>, content: Seq<char>) -> Seq<char> {
    seq!['t', 'i', 't', 'l', 'e', ':', ' '] + title + seq![
        ' ', '|', ' ', 't', 'e', 'x', 't', ':', ' ',
    ] + content
}

/// The prompt for `content` with an optional title; a document without a title is titled
/// `none`.
pub open spec fn prompt_of(task: TaskType, content: Seq<char>, title: Option<Seq<char>>) -> Seq<char> {
    match task {
        TaskType::RetrievalQuery => query_prompt(content),
        TaskType::RetrievalDocument => document_prompt(
            match title {
                Some(t) => t,
                None => seq!['n', 'o', 'n', 'e'],
            },
            content,
        ),
    }
}

impl TaskType {
    /// Apply the appropriate prompt prefix to the content.
    pub fn apply_prefix(&self, content: &str, title: Option<&str>) -> (r: String)
        ensures
            r@ == prompt_of(
                *self,
                content@,
                match title {
                    Some(t) => Some(t@),
                    None => None,
                },
            ),
    {
        proof {
            reveal_strlit("task: search result | query: ");
            reveal_strlit("title: ");
            reveal_strlit(" | text: ");
            reveal_strlit("none");
        }
        match self {
            TaskType::RetrievalQuery => {
                let mut s = to_string("task: search result | query: ");
                push_str(&mut s, content);
                assert(s@ =~= query_prompt(content@));
                s
            },
            TaskType::RetrievalDocument => {
                let t = match title {
                    Some(t) => t,
                    None => "none",
                };
                let mut s = to_string("title: ");
                push_str(&mut s, t);
                push_str(&mut s, " | text: ");
                push_str(&mut s, content);
                assert(s@ =~= document_prompt(t@, content@));
                s
            },
        }
    }
}

/// The prompts of a batch: each text paired with its own title.
pub fn embed_batch_prefixed(texts: &Vec<String>, titles: &Vec<Option<String>>, task: TaskType) -> (r:
    Vec<String>)
    requires
        texts@.len() == titles@.len(),
    ensures
        r@.len() == texts@.len(),
        forall|k: int|
            0 <= k < r@.len() ==> (#[trigger] r@[k])@ == prompt_of(
                task,
                texts@[k]@,
                match titles@[k] {
                    Some(t) => Some(t@),
                    None => None,
                },
            ),
{
    let mut out: Vec<String> = Vec::new();
    let mut k: usize = 0;
    while k < texts.len()
        invariant
            k <= texts@.len() == titles@.len(),
            out@.len() == k,
            forall|j: int|
                0 <= j < k ==> (#[trigger] out@[j])@ == prompt_of(
                    task,
                    texts@[j]@,
                    match titles@[j] {
                        Some(t) => Some(t@),
                        None => None,
                    },
                ),
        decreases texts@.len() - k,
    {
        let title = match &titles[k] {
            Some(t) => Some(t.as_str()),
            None => None,
        };
        out.push(task.apply_prefix(texts[k].as_str(), title));
        k += 1;
    }
    out
}

} // verus!
