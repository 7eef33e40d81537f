//! Where the characters of a text stand among its bytes.
use vstd::prelude::*;
use vstd::utf8::{encode_scalar, encode_utf8};

verus! {

/// How many bytes stand before the character at `i`.
pub open spec fn byte_place(s: Seq<char>, i: int) -> int {
    encode_utf8(s.take(i)).len() as int
}

/// Where the characters from `lo` to `hi` stand among the bytes.
pub open spec fn span_of(s: Seq<char>, lo: int, hi: int) -> (int, int) {
    (byte_place(s, lo), byte_place(s, hi))
}

/// The bytes at a span are those of the text `t`.
pub open spec fn recovers(s: Seq<char>, span: (int, int), t: Seq<char>) -> bool {
    &&& 0 <= span.0 <= span.1 <= encode_utf8(s).len()
    &&& encode_utf8(s).subrange(span.0, span.1) == encode_utf8(t)
}

/// The bytes of two texts in a row are those of the one and those of the other.
pub proof fn bytes_join(a: Seq<char>, b: Seq<char>)
    ensures
        encode_utf8(a + b) == encode_utf8(a) + encode_utf8(b),
    decreases a.len(),
{
    if a.len() == 0 {
        assert(a + b =~= b);
        assert(encode_utf8(a) + encode_utf8(b) =~= encode_utf8(b));
    } else {
        bytes_join(a.drop_first(), b);
        assert((a + b).drop_first() =~= a.drop_first() + b);
        assert((a + b)[0] == a[0]);
        assert(encode_utf8(a + b) =~= encode_utf8(a) + encode_utf8(b));
    }
}

/// The bytes from one character to another recover the text between them.
pub proof fn bytes_recover_text(s: Seq<char>, lo: int, hi: int)
    requires
        0 <= lo <= hi <= s.len(),
    ensures
        recovers(s, span_of(s, lo, hi), s.subrange(lo, hi)),
{
    let head = s.take(lo);
    let mid = s.subrange(lo, hi);
    let tail = s.skip(hi);
    bytes_join(head, mid);
    bytes_join(s.take(hi), tail);
    assert(head + mid =~= s.take(hi));
    assert(s.take(hi) + tail =~= s);
    assert(encode_utf8(s).subrange(byte_place(s, lo), byte_place(s, hi)) =~= encode_utf8(mid));
}

/// A text that is not empty takes up bytes.
pub proof fn text_takes_bytes(t: Seq<char>)
    requires
        t.len() > 0,
    ensures
        encode_utf8(t).len() > 0,
{
    assert(encode_scalar(t[0] as u32).len() > 0);
}

proof fn next_place(s: Seq<char>, i: int)
    requires
        0 <= i < s.len(),
    ensures
        byte_place(s, i + 1) == byte_place(s, i) + encode_scalar(s[i] as u32).len(),
        byte_place(s, i + 1) <= encode_utf8(s).len(),
{
    let one = seq![s[i]];
    bytes_join(s.take(i), one);
    bytes_join(s.take(i + 1), s.skip(i + 1));
    assert(s.take(i) + one =~= s.take(i + 1));
    assert(s.take(i + 1) + s.skip(i + 1) =~= s);
    assert(one.drop_first() =~= Seq::<char>::empty());
    assert(encode_utf8(one) =~= encode_scalar(s[i] as u32) + encode_utf8(one.drop_first()));
}

fn width(c: char) -> (r: usize)
    ensures
        r == encode_scalar(c as u32).len(),
{
    let n: u32 = c as u32;
    if n <= 0x7F {
        1
    } else if n <= 0x7FF {
        2
    } else if n <= 0xFFFF {
        3
    } else {
        4
    }
}

/// Where each character of a text stands among its bytes, and where the text ends.
pub fn byte_places(source: &str, s: &Vec<char>) -> (r: Vec<usize>)
    requires
        s@ == source@,
    ensures
        r.len() == s.len() + 1,
        forall|k: int| 0 <= k <= s.len() ==> #[trigger] r@[k] == byte_place(source@, k),
{
    let size: usize = source.as_bytes().len();
    let mut r: Vec<usize> = Vec::new();
    let mut at: usize = 0;
    let mut i: usize = 0;
    assert(s@.take(0) =~= Seq::<char>::empty());
    r.push(at);
    while i < s.len()
        invariant
            i <= s.len(),
            s@ == source@,
            size == encode_utf8(source@).len(),
            at == byte_place(source@, i as int),
            r.len() == i + 1,
            forall|k: int| 0 <= k <= i ==> #[trigger] r@[k] == byte_place(source@, k),
        decreases s.len() - i,
    {
        proof {
            next_place(source@, i as int);
        }
        at += width(s[i]);
        r.push(at);
        i += 1;
    }
    r
}

} // verus!
