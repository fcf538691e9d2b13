//! Splitting raw input into lines, each decoded to text with invalid UTF-8
//! replaced rather than rejected.

use vstd::prelude::*;

verus! {

/// What `String::from_utf8_lossy` makes of `bytes`.
pub uninterp spec fn lossy_utf8(bytes: Seq<u8>) -> Seq<char>;

/// Relies on `String::from_utf8_lossy`: the bytes decoded as UTF-8, each
/// invalid sequence replaced by U+FFFD; no bytes give the empty string.
#[verifier::external_body]
fn decode_lossy(bytes: &[u8]) -> (r: String)
    ensures
        r@ == lossy_utf8(bytes@),
        bytes@.len() == 0 ==> r@.len() == 0,
{
    String::from_utf8_lossy(bytes).into_owned()
}

/// `line` without one trailing carriage return.
pub open spec fn strip_cr(line: Seq<u8>) -> Seq<u8> {
    if line.len() > 0 && line.last() == 13u8 {
        line.drop_last()
    } else {
        line
    }
}

/// Reading `bytes` from the start: the lines ended by a line feed so far (each
/// without its line feed and one carriage return before it), and the bytes of
/// the line still open.
pub open spec fn scan_lines(bytes: Seq<u8>) -> (Seq<Seq<u8>>, Seq<u8>)
    decreases bytes.len(),
{
    if bytes.len() == 0 {
        (seq![], seq![])
    } else {
        let (done, open) = scan_lines(bytes.drop_last());
        if bytes.last() == 10u8 {
            (done.push(strip_cr(open)), seq![])
        } else {
            (done, open.push(bytes.last()))
        }
    }
}

/// The lines of `bytes`: split at each line feed, a carriage return before a
/// line feed dropped, and a last line kept only where it is not empty.
pub open spec fn lines_of(bytes: Seq<u8>) -> Seq<Seq<u8>> {
    let (done, open) = scan_lines(bytes);
    if open.len() > 0 {
        done.push(open)
    } else {
        done
    }
}

/// Splits `content` into its lines and decodes each one, replacing invalid
/// UTF-8 with U+FFFD.
pub fn split_lines_lossy(content: &[u8]) -> (r: Vec<String>)
    ensures
        r@.len() == lines_of(content@).len(),
        forall|k: int| 0 <= k < r@.len() ==> #[trigger] r@[k]@ == lossy_utf8(lines_of(content@)[k]),
{
    let mut lines: Vec<String> = Vec::new();
    let mut open: Vec<u8> = Vec::new();
    let mut i: usize = 0;
    while i < content.len()
        invariant
            i <= content@.len(),
            scan_lines(content@.take(i as int)).1 == open@,
            lines@.len() == scan_lines(content@.take(i as int)).0.len(),
            forall|k: int|
                0 <= k < lines@.len() ==> #[trigger] lines@[k]@ == lossy_utf8(
                    scan_lines(content@.take(i as int)).0[k],
                ),
        decreases content@.len() - i,
    {
        let b = content[i];
        assert(content@.take(i + 1).drop_last() == content@.take(i as int));
        if b == 10u8 {
            let ends_cr = open.len() > 0 && open[open.len() - 1] == 13u8;
            if ends_cr {
                open.pop();
            }
            lines.push(decode_lossy(open.as_slice()));
            open = Vec::new();
        } else {
            open.push(b);
        }
        i = i + 1;
    }
    assert(content@.take(content@.len() as int) == content@);
    if open.len() > 0 {
        lines.push(decode_lossy(open.as_slice()));
    }
    lines
}

} // verus!
