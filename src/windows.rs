//! Runs of consecutive units of a record, as character spans.
use vstd::prelude::*;

use crate::error::VocabError;
use crate::tokenizer::{spans_cut, unit_spans, well_formed_record};

verus! {

/// The spans of the runs of `n` consecutive units, given the units' spans.
pub open spec fn windows_of(spans: Seq<(usize, usize)>, n: int) -> Seq<(usize, usize)> {
    if spans.len() < n {
        Seq::empty()
    } else {
        Seq::new(
            (spans.len() - n + 1) as nat,
            |k: int| (spans[k].0, spans[k + n - 1].1),
        )
    }
}

/// The character spans of every run of `n` consecutive units of a record,
/// in order. A width of zero or a malformed record is refused.
pub fn window_spans(s: &str, n: usize) -> (r: Result<Vec<(usize, usize)>, VocabError>)
    ensures
        n == 0 ==> r == Err::<Vec<(usize, usize)>, VocabError>(VocabError::InvalidWindow),
        n > 0 ==> (r is Ok <==> well_formed_record(s@)),
        n > 0 && !well_formed_record(s@) ==> r == Err::<Vec<(usize, usize)>, VocabError>(
            VocabError::MalformedRecord,
        ),
        r matches Ok(ws) ==> exists|spans: Seq<(usize, usize)>|
            spans_cut(s@, spans) && ws@ == windows_of(spans, n as int),
{
    if n == 0 {
        return Err(VocabError::InvalidWindow);
    }
    let spans = match unit_spans(s) {
        Ok(spans) => spans,
        Err(e) => {
            return Err(e);
        },
    };
    let mut out: Vec<(usize, usize)> = Vec::new();
    if spans.len() >= n {
        let total = spans.len();
        let count = total - n + 1;
        let mut k: usize = 0;
        while k < count
            invariant
                total == spans@.len(),
                n > 0,
                spans@.len() >= n,
                count == spans@.len() - n + 1,
                k <= count,
                out@.len() == k,
                forall|q: int| 0 <= q < k ==> out@[q] == (spans@[q].0, spans@[q + n - 1].1),
            decreases count - k,
        {
            out.push((spans[k].0, spans[k + (n - 1)].1));
            k = k + 1;
        }
    }
    proof {
        assert(out@ == windows_of(spans@, n as int));
    }
    Ok(out)
}

} // verus!
