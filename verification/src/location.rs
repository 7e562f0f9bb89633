//! Line and column of a byte offset in a source text, for pointing at where
//! a name is defined.
use vstd::prelude::*;
use vstd::string::StringSliceAdditionalSpecFns;
use vstd::utf8::{is_char_boundary, is_continuation_byte};

verus! {

/// The number of line feeds in `b`.
pub open spec fn newline_count(b: Seq<u8>) -> nat
    decreases b.len(),
{
    if b.len() == 0 {
        0
    } else {
        newline_count(b.drop_last()) + if b.last() == 10u8 {
            1nat
        } else {
            0nat
        }
    }
}

/// Where the last line of `b` starts: just after its last line feed, or 0.
pub open spec fn line_start(b: Seq<u8>) -> int
    decreases b.len(),
{
    if b.len() == 0 {
        0
    } else if b.last() == 10u8 {
        b.len() as int
    } else {
        line_start(b.drop_last())
    }
}

/// The number of characters that the UTF-8 bytes `b` encode: the bytes that
/// begin a character, that is, all but continuation bytes.
pub open spec fn char_count(b: Seq<u8>) -> nat
    decreases b.len(),
{
    if b.len() == 0 {
        0
    } else {
        char_count(b.drop_last()) + if is_continuation_byte(b.last()) {
            0nat
        } else {
            1nat
        }
    }
}

/// `start`, or the end of `b` where `start` lies past it.
pub open spec fn clamp_offset(b: Seq<u8>, start: nat) -> int {
    if start < b.len() {
        start as int
    } else {
        b.len() as int
    }
}

/// The 1-based line and column of byte offset `start` (clamped to the end)
/// in the text whose bytes are `b`: one more than the line feeds before it,
/// and one more than the characters between the start of its line and it.
pub open spec fn def_loc_spec(b: Seq<u8>, start: nat) -> (nat, nat) {
    let off = clamp_offset(b, start);
    let pre = b.take(off);
    (1 + newline_count(pre), 1 + char_count(b.subrange(line_start(pre), off)))
}

proof fn lemma_line_start_bound(b: Seq<u8>)
    ensures
        0 <= line_start(b) <= b.len(),
        newline_count(b) <= b.len(),
    decreases b.len(),
{
    if b.len() > 0 {
        lemma_line_start_bound(b.drop_last());
    }
}

proof fn lemma_char_count_bound(b: Seq<u8>)
    ensures
        char_count(b) <= b.len(),
    decreases b.len(),
{
    if b.len() > 0 {
        lemma_char_count_bound(b.drop_last());
    }
}

/// The line and column, both counted from 1, of byte offset `start` in
/// `src`; an offset past the end stands for the end. The offset must fall
/// on a character boundary.
pub fn def_loc(src: &str, start: usize) -> (r: (usize, usize))
    requires
        src.spec_bytes().len() <= isize::MAX,
        is_char_boundary(src.spec_bytes(), clamp_offset(src.spec_bytes(), start as nat)),
    ensures
        (r.0 as nat, r.1 as nat) == def_loc_spec(src.spec_bytes(), start as nat),
{
    let b = src.as_bytes();
    let off: usize = if start < b.len() {
        start
    } else {
        b.len()
    };
    let mut line: usize = 1;
    let mut last_nl: usize = 0;
    let mut i: usize = 0;
    assert(b@.take(0) =~= Seq::<u8>::empty());
    while i < off
        invariant
            i <= off <= b@.len() <= isize::MAX,
            line == 1 + newline_count(b@.take(i as int)),
            last_nl == line_start(b@.take(i as int)),
        decreases off - i,
    {
        proof {
            lemma_line_start_bound(b@.take(i as int));
            assert(b@.take(i + 1).drop_last() =~= b@.take(i as int));
        }
        if b[i] == 10u8 {
            line += 1;
            last_nl = i + 1;
        }
        i += 1;
    }
    proof {
        lemma_line_start_bound(b@.take(off as int));
    }
    let mut col: usize = 1;
    let mut k: usize = last_nl;
    assert(b@.subrange(last_nl as int, last_nl as int) =~= Seq::<u8>::empty());
    while k < off
        invariant
            last_nl <= k <= off <= b@.len() <= isize::MAX,
            col == 1 + char_count(b@.subrange(last_nl as int, k as int)),
        decreases off - k,
    {
        proof {
            lemma_char_count_bound(b@.subrange(last_nl as int, k as int));
            assert(b@.subrange(last_nl as int, k + 1).drop_last() =~= b@.subrange(last_nl as int, k as int));
        }
        if !(0x80u8 <= b[k] && b[k] <= 0xbfu8) {
            col += 1;
        }
        k += 1;
    }
    (line, col)
}

} // verus!
