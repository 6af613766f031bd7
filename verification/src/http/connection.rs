use vstd::prelude::*;

use crate::http::response::response_text;
use crate::http::status::{status_header_text, Status};
use crate::text::{
    all_nul, chars_of, lemma_trim_nul_end_suffix, lemma_trim_nul_padding, substring, trim_nul,
    trim_nul_end,
};

verus! {

broadcast use vstd::string::group_string_axioms;

/// An empty line starts at `j`: `s` has `\n\n` there.
pub open spec fn blank_at(s: Seq<char>, j: int) -> bool {
    s[j] == '\n' && s[j + 1] == '\n'
}

/// `i` is where the first empty line of `s` starts: the first `\n\n`.
pub open spec fn is_first_blank(s: Seq<char>, i: int) -> bool {
    &&& 0 <= i && i + 1 < s.len()
    &&& blank_at(s, i)
    &&& forall|j: int| 0 <= j < i ==> !#[trigger] blank_at(s, j)
}

/// The body of an answer: what follows its first empty line (`\n\n`), or
/// `None` when it has none.
pub open spec fn body_of(s: Seq<char>) -> Option<Seq<char>> {
    if exists|i: int| is_first_blank(s, i) {
        Some(s.skip((choose|i: int| is_first_blank(s, i)) + 2))
    } else {
        None
    }
}

/// The body of an answer read from the bootstrap server: the text after
/// its first empty line, or `None` when it has none.
pub fn response_body(response: &str) -> (r: Option<String>)
    ensures
        match body_of(response@) {
            Some(b) => r matches Some(s) && s@ == b,
            None => r is None,
        },
{
    let v = chars_of(response);
    let mut i: usize = 0;
    while i < v.len() && v.len() - i > 1
        invariant
            v@ == response@,
            i <= v.len(),
            forall|j: int| 0 <= j < i ==> !#[trigger] blank_at(response@, j),
        decreases v.len() - i,
    {
        if v[i] == '\n' && v[i + 1] == '\n' {
            proof {
                assert(is_first_blank(response@, i as int));
                let k = choose|k: int| is_first_blank(response@, k);
                if k < i {
                } else if i < k {
                    assert(!blank_at(response@, i as int));
                }
            }
            return Some(substring(response, i + 2, v.len()));
        }
        i = i + 1;
    }
    None
}

/// The body a client reads out of the bootstrap server's answer is the
/// message the server wrote into it, whatever the status.
pub proof fn law_response_body_read_back(msg: Seq<char>, status: Status)
    ensures
        body_of(response_text(msg, status)) == Some(msg),
{
    reveal_strlit("HTTP/1.1 200 OK");
    reveal_strlit("HTTP/1.1 404 ERROR");
    reveal_strlit("\n\n");
    let header = status_header_text(status);
    let s = response_text(msg, status);
    let h = header.len() as int;
    assert(s[h] == '\n' && s[h + 1] == '\n');
    assert forall|j: int| 0 <= j < h implies !#[trigger] blank_at(s, j) by {
        assert(s[j] == header[j]);
    }
    assert(is_first_blank(s, h));
    let k = choose|i: int| is_first_blank(s, i);
    if k < h {
        assert(!blank_at(s, k));
    } else if h < k {
        assert(!blank_at(s, h));
    }
    assert(s.skip(h + 2) =~= msg);
}

/// An answer read into a larger buffer is followed by NUL characters: the
/// body a client reads out of it is the server's message followed by
/// them (all the buffer's text after the status line and the empty line),
/// and trimming the NUL characters at its end gives the message
/// back when it does not itself end in one.
pub proof fn law_padded_response_body_read_back(msg: Seq<char>, status: Status, pad: Seq<char>)
    requires
        all_nul(pad),
    ensures
        body_of(response_text(msg, status) + pad) == Some(msg + pad),
        (msg + pad).len() == (response_text(msg, status) + pad).len() - status_header_text(
            status,
        ).len() - 2,
        trim_nul(msg + pad) == trim_nul(msg),
        msg.len() == 0 || msg.last() != '\0' ==> trim_nul_end(msg + pad) == msg,
{
    reveal_strlit("HTTP/1.1 200 OK");
    reveal_strlit("HTTP/1.1 404 ERROR");
    reveal_strlit("\n\n");
    let header = status_header_text(status);
    let s = response_text(msg, status) + pad;
    let h = header.len() as int;
    assert(s[h] == '\n' && s[h + 1] == '\n');
    assert forall|j: int| 0 <= j < h implies !#[trigger] blank_at(s, j) by {
        assert(s[j] == header[j]);
    }
    assert(is_first_blank(s, h));
    let k = choose|i: int| is_first_blank(s, i);
    if k < h {
        assert(!blank_at(s, k));
    } else if h < k {
        assert(!blank_at(s, h));
    }
    assert(s.skip(h + 2) =~= msg + pad);
    lemma_trim_nul_padding(Seq::<char>::empty(), msg, pad);
    assert(Seq::<char>::empty() + msg + pad =~= msg + pad);
    lemma_trim_nul_end_suffix(msg, pad);
}

} // verus!
