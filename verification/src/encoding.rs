//! Bytes as text: base64, as it stands in mail bodies and in stored payloads.
#[allow(unused_imports)]
use crate::text::one_line;
use crate::text::{chars_of, text_between};
use base64::engine::general_purpose::STANDARD;
use base64::Engine;
use vstd::prelude::*;

verus! {

/// What the standard base64 engine makes of bytes.
pub uninterp spec fn base64_text(data: Seq<u8>) -> Seq<char>;

/// What the standard base64 engine reads from a text, `None` where the text is no base64.
pub uninterp spec fn base64_bytes(text: Seq<char>) -> Option<Seq<u8>>;

/// A character of the standard base64 alphabet, or its padding.
pub open spec fn is_base64_char(c: char) -> bool {
    ||| 'A' <= c <= 'Z'
    ||| 'a' <= c <= 'z'
    ||| '0' <= c <= '9'
    ||| c == '+'
    ||| c == '/'
    ||| c == '='
}

/// Calls `encode` of `base64::engine::general_purpose::STANDARD`. The text depends on the bytes
/// alone, holds characters of the alphabet and padding only, has four characters for each three
/// bytes begun, and reads back as the same bytes.
#[verifier::external_body]
fn encode_standard(data: &[u8]) -> (text: String)
    ensures
        text@ == base64_text(data@),
        base64_bytes(text@) == Some(data@),
        forall|i: int| 0 <= i < text@.len() ==> is_base64_char(#[trigger] text@[i]),
        text@.len() == (data@.len() + 2) / 3 * 4,
{
    STANDARD.encode(data)
}

/// Calls `decode` of `base64::engine::general_purpose::STANDARD`. The result, and whether there is
/// one, depend on the text alone.
#[verifier::external_body]
fn decode_standard(text: &str) -> (data: Option<Vec<u8>>)
    ensures
        match data {
            Some(d) => base64_bytes(text@) == Some(d@),
            None => base64_bytes(text@) is None,
        },
{
    STANDARD.decode(text).ok()
}

/// Bytes in base64.
pub fn encode_data(data: &[u8]) -> (text: String)
    ensures
        text@ == base64_text(data@),
        base64_bytes(text@) == Some(data@),
{
    encode_standard(data)
}

/// The bytes of a text in base64.
pub fn decode_data(text: &str) -> (data: Option<Vec<u8>>)
    ensures
        match data {
            Some(d) => base64_bytes(text@) == Some(d@),
            None => base64_bytes(text@) is None,
        },
{
    decode_standard(text)
}

/// A text broken into lines of at most 76 characters.
pub open spec fn wrapped(s: Seq<char>) -> Seq<char>
    decreases s.len(),
{
    if s.len() <= 76 {
        s
    } else {
        s.take(76) + "\r\n"@ + wrapped(s.skip(76))
    }
}

/// A text broken into lines of at most 76 characters.
pub fn wrap_lines(s: &str) -> (r: String)
    ensures
        r@ == wrapped(s@),
{
    let v = chars_of(s);
    let n: usize = v.len();
    let mut out = String::new();
    let mut i: usize = 0;
    assert(v@.skip(0) =~= v@);
    assert(out@ + wrapped(v@) =~= wrapped(v@));
    while n - i > 76
        invariant
            v@ == s@,
            n == v@.len(),
            i <= n,
            wrapped(s@) == out@ + wrapped(v@.skip(i as int)),
        decreases n - i,
    {
        let ghost before = out@;
        let line = text_between(&v, i, i + 76);
        out.append(line.as_str());
        out.append("\r\n");
        proof {
            let rest = v@.skip(i as int);
            assert(rest.take(76) =~= line@);
            assert(rest.skip(76) =~= v@.skip(i + 76));
            assert(out@ + wrapped(v@.skip(i + 76)) =~= before + (line@ + "\r\n"@ + wrapped(
                v@.skip(i + 76),
            )));
        }
        i += 76;
    }
    assert(v@.subrange(i as int, n as int) =~= v@.skip(i as int));
    out.append(text_between(&v, i, n).as_str());
    out
}

/// `s` without carriage returns and line feeds.
pub open spec fn without_breaks(s: Seq<char>) -> Seq<char> {
    s.filter(|c: char| c != '\r' && c != '\n')
}

/// Breaking a text that has no line breaks into lines, and joining the lines again, gives the text
/// back.
pub proof fn law_wrapping_is_undone(s: Seq<char>)
    requires
        one_line(s),
    ensures
        without_breaks(wrapped(s)) == s,
    decreases s.len(),
{
    let keep = |c: char| c != '\r' && c != '\n';
    if s.len() <= 76 {
        lemma_filter_keeps(s, keep);
    } else {
        let head = s.take(76);
        let tail = s.skip(76);
        assert(s == head + tail) by {
            s.lemma_split_at(76);
        }
        assert forall|i: int| 0 <= i < head.len() implies keep(#[trigger] head[i]) by {
            assert(head[i] == s[i]);
        }
        assert forall|i: int| 0 <= i < tail.len() implies #[trigger] tail[i] != '\r' && tail[i]
            != '\n' by {
            assert(tail[i] == s[i + 76]);
        }
        law_wrapping_is_undone(tail);
        lemma_filter_keeps(head, keep);
        reveal_strlit("\r\n");
        let brk = "\r\n"@;
        assert(brk =~= seq!['\r', '\n']);
        Seq::filter_distributes_over_add(head + brk, wrapped(tail), keep);
        Seq::filter_distributes_over_add(head, brk, keep);
        assert(brk.filter(keep) =~= Seq::<char>::empty()) by {
            assert(brk.drop_last().drop_last() =~= Seq::<char>::empty());
            reveal_with_fuel(Seq::filter, 3);
        }
        assert(head + Seq::<char>::empty() =~= head);
    }
}

proof fn lemma_filter_keeps(s: Seq<char>, keep: spec_fn(char) -> bool)
    requires
        forall|i: int| 0 <= i < s.len() ==> keep(#[trigger] s[i]),
    ensures
        s.filter(keep) == s,
    decreases s.len(),
{
    reveal(Seq::filter);
    if s.len() > 0 {
        assert forall|i: int| 0 <= i < s.drop_last().len() implies keep(
            #[trigger] s.drop_last()[i],
        ) by {
            assert(s.drop_last()[i] == s[i]);
        }
        lemma_filter_keeps(s.drop_last(), keep);
        assert(s =~= s.drop_last().push(s.last()));
        assert(keep(s[s.len() - 1]));
    }
}

/// A text in base64, broken into lines. It holds no line breaks but these, and without them it reads
/// back as the bytes.
pub fn encode_lines(data: &[u8]) -> (text: String)
    ensures
        text@ == wrapped(base64_text(data@)),
        base64_bytes(without_breaks(text@)) == Some(data@),
        without_breaks(text@) == base64_text(data@),
        one_line(base64_text(data@)),
{
    let text = encode_standard(data);
    proof {
        law_wrapping_is_undone(text@);
    }
    wrap_lines(text.as_str())
}

} // verus!
