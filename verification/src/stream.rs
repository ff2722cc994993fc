//! The streamed-generation assembler: transport chunks arrive as raw text,
//! complete lines are handed back for decoding, and decoded fragments
//! accumulate into the full answer until the end-of-stream marker.

use crate::text::{has_no_char, lemma_split_pieces_no_sep, split_lines, split_lines_spec};
use vstd::prelude::*;

verus! {

/// The state of one streamed generation: the tail of the transport text
/// that no newline has ended yet, the answer accumulated so far, and
/// whether the stream's end marker has been seen.
pub struct StreamState {
    /// Transport text after the last complete line.
    pub buffer: String,
    /// The full answer accumulated so far.
    pub full: String,
    /// Whether the end-of-stream marker arrived.
    pub finished: bool,
}

impl StreamState {
    /// A fresh stream: nothing buffered, nothing accumulated, not finished.
    pub fn new() -> (r: StreamState)
        ensures
            r.buffer@ == Seq::<char>::empty(),
            r.full@ == Seq::<char>::empty(),
            !r.finished,
    {
        StreamState { buffer: String::new(), full: String::new(), finished: false }
    }

    /// Feeds one transport chunk in and takes out the lines it completed:
    /// the pending text followed by the chunk splits into the returned
    /// complete lines plus a newline-free remainder, which stays pending.
    pub fn push_chunk(&mut self, chunk: &str) -> (lines: Vec<String>)
        ensures
            split_lines_spec(old(self).buffer@ + chunk@) == lines.deep_view().push(
                final(self).buffer@,
            ),
            has_no_char(final(self).buffer@, '\n'),
            final(self).full == old(self).full,
            final(self).finished == old(self).finished,
    {
        self.buffer.append(chunk);
        let ghost whole = self.buffer@;
        let mut pieces = split_lines(self.buffer.as_str());
        proof {
            lemma_split_pieces_no_sep(whole, '\n', Seq::empty());
            assert(has_no_char(pieces.deep_view().last(), '\n')) by {
                assert(pieces.deep_view().last() == pieces.deep_view()[pieces.deep_view().len()
                    - 1]);
            }
        }
        let ghost dv = pieces.deep_view();
        match pieces.pop() {
            Some(last) => {
                proof {
                    assert(last@ == dv.last()) by {
                        assert(dv[dv.len() - 1] == pieces@.push(last)[dv.len() - 1]@);
                    }
                }
                self.buffer = last;
                proof {
                    assert(pieces.deep_view() =~= dv.drop_last());
                    assert(dv.drop_last().push(dv.last()) =~= dv);
                }
                pieces
            },
            None => {
                proof {
                    assert(false);
                }
                pieces
            },
        }
    }

    /// Records one decoded fragment: the fragment joins the accumulated
    /// answer, and the end marker, once seen, stays seen.
    pub fn absorb_fragment(&mut self, response: &str, done: bool)
        ensures
            final(self).full@ == old(self).full@ + response@,
            final(self).finished == (old(self).finished || done),
            final(self).buffer == old(self).buffer,
    {
        self.full.append(response);
        if done {
            self.finished = true;
        }
    }
}

} // verus!
