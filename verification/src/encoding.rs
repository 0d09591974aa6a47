//! Byte-level structure of rows.
//!
//! A row is stored as a sequence of bytes in a variable-width encoding: every
//! character starts with a lead byte that announces its width (one to four
//! bytes) and is followed by continuation bytes. The spec functions here give
//! the mathematical reading of such a sequence — whether it consists of
//! complete characters, how many characters it holds, and at which byte each
//! character starts — and the executable functions decide those questions on
//! concrete rows.

use vstd::prelude::*;

verus! {

/// True of the bytes that can only stand inside a character, never start one.
pub open spec fn is_cont(b: u8) -> bool {
    0x80 <= b < 0xC0
}

/// Width in bytes of the character that starts with lead byte `b`; zero when
/// `b` can never start a character (a continuation byte, one of the two-byte
/// leads 0xC0 and 0xC1 that only overlong forms use, or 0xF5 and up).
pub open spec fn lead_width(b: u8) -> nat {
    if b < 0x80 {
        1
    } else if b < 0xC2 {
        0
    } else if b < 0xE0 {
        2
    } else if b < 0xF0 {
        3
    } else if b < 0xF5 {
        4
    } else {
        0
    }
}

/// Width of the first character of `s`, clamped to one byte when the front of
/// `s` does not start a character that fits in `s`.
pub open spec fn step_width(s: Seq<u8>) -> nat
    recommends
        s.len() > 0,
{
    let w = lead_width(s[0]);
    if 1 <= w && w <= s.len() {
        w
    } else {
        1
    }
}

/// A row is well formed when it parses into complete characters: each
/// character begins with a lead byte whose width fits in the row, followed by
/// exactly the continuation bytes the lead byte announces.
///
/// The reading is structural and slightly wider than strict UTF-8: every byte
/// that can never lead a character is refused (continuation bytes, 0xC0,
/// 0xC1, 0xF5 and up), but forms that strict UTF-8 additionally rules out by
/// tying the first continuation byte's range to the lead — overlong
/// encodings such as `E0 80 80`, surrogates, values past the last code
/// point — are not. On bytes that decode as UTF-8 the two readings agree, so
/// no content a UTF-8 decoder accepts is ever read differently here.
pub open spec fn well_formed(s: Seq<u8>) -> bool
    decreases s.len(),
{
    s.len() == 0 || {
        let w = lead_width(s[0]);
        &&& 1 <= w
        &&& w <= s.len()
        &&& (forall|j: int| 1 <= j < w ==> is_cont(s[j]))
        &&& well_formed(s.skip(w as int))
    }
}

/// Number of characters in `s`, stepping over the bytes character by
/// character (one byte at a time where `s` is not well formed).
pub open spec fn char_count(s: Seq<u8>) -> nat
    decreases s.len(),
{
    if s.len() == 0 {
        0
    } else {
        1 + char_count(s.skip(step_width(s) as int))
    }
}

/// Byte offset at which the `i`-th character of `s` starts; the length of `s`
/// when `i` is the character count (the append position) or beyond it.
pub open spec fn byte_offset_of(s: Seq<u8>, i: nat) -> nat
    decreases i,
{
    if i == 0 || s.len() == 0 {
        0
    } else {
        (step_width(s) + byte_offset_of(s.skip(step_width(s) as int), (i - 1) as nat)) as nat
    }
}

/// The rows of a buffer, read as mathematical sequences.
pub open spec fn rows_view(rows: Seq<Vec<u8>>) -> Seq<Seq<u8>> {
    Seq::new(rows.len(), |i: int| rows[i]@)
}

/// A row never holds more characters than bytes.
pub proof fn lemma_char_count_le_len(s: Seq<u8>)
    ensures
        char_count(s) <= s.len(),
    decreases s.len(),
{
    if s.len() > 0 {
        lemma_char_count_le_len(s.skip(step_width(s) as int));
    }
}

/// Character offsets never point past the end of the row.
pub proof fn lemma_offset_le_len(s: Seq<u8>, i: nat)
    ensures
        byte_offset_of(s, i) <= s.len(),
    decreases i,
{
    if i > 0 && s.len() > 0 {
        lemma_offset_le_len(s.skip(step_width(s) as int), (i - 1) as nat);
    }
}

/// Joining two rows of complete characters gives complete characters again.
pub proof fn lemma_wf_concat(a: Seq<u8>, b: Seq<u8>)
    requires
        well_formed(a),
        well_formed(b),
    ensures
        well_formed(a + b),
    decreases a.len(),
{
    if a.len() == 0 {
        assert(a + b =~= b);
    } else {
        let w = lead_width(a[0]) as int;
        assert((a + b).skip(w) =~= a.skip(w) + b);
        lemma_wf_concat(a.skip(w), b);
        assert forall|j: int| 1 <= j < w implies is_cont((a + b)[j]) by {
            assert((a + b)[j] == a[j]);
        }
    }
}

/// Characters of a joined row are those of its parts, counted together.
pub proof fn lemma_cc_concat(a: Seq<u8>, b: Seq<u8>)
    requires
        well_formed(a),
    ensures
        char_count(a + b) == char_count(a) + char_count(b),
    decreases a.len(),
{
    if a.len() == 0 {
        assert(a + b =~= b);
    } else {
        let w = lead_width(a[0]) as int;
        assert(step_width(a + b) == w);
        assert((a + b).skip(w) =~= a.skip(w) + b);
        lemma_cc_concat(a.skip(w), b);
    }
}

/// An offset inside the left part of a joined row ignores the right part.
pub proof fn lemma_off_concat_lo(a: Seq<u8>, b: Seq<u8>, i: nat)
    requires
        well_formed(a),
        i <= char_count(a),
    ensures
        byte_offset_of(a + b, i) == byte_offset_of(a, i),
    decreases i,
{
    if i > 0 {
        let w = lead_width(a[0]) as int;
        assert((a + b).skip(w) =~= a.skip(w) + b);
        lemma_off_concat_lo(a.skip(w), b, (i - 1) as nat);
    }
}

/// An offset at or past the left part of a joined row lands in the right part.
pub proof fn lemma_off_concat_hi(a: Seq<u8>, b: Seq<u8>, i: nat)
    requires
        well_formed(a),
        i >= char_count(a),
    ensures
        byte_offset_of(a + b, i) == a.len() + byte_offset_of(b, (i - char_count(a)) as nat),
    decreases a.len(),
{
    if a.len() == 0 {
        assert(a + b =~= b);
    } else {
        let w = lead_width(a[0]) as int;
        assert((a + b).skip(w) =~= a.skip(w) + b);
        lemma_off_concat_hi(a.skip(w), b, (i - 1) as nat);
    }
}

/// Cutting a row at a character boundary keeps the front made of complete
/// characters, exactly `i` of them.
pub proof fn lemma_wf_take(s: Seq<u8>, i: nat)
    requires
        well_formed(s),
        i <= char_count(s),
    ensures
        well_formed(s.take(byte_offset_of(s, i) as int)),
        char_count(s.take(byte_offset_of(s, i) as int)) == i,
    decreases i,
{
    if i == 0 {
        assert(s.take(0) =~= Seq::<u8>::empty());
    } else {
        let w = lead_width(s[0]) as int;
        let rest = s.skip(w);
        lemma_wf_take(rest, (i - 1) as nat);
        lemma_offset_le_len(rest, (i - 1) as nat);
        let o1 = byte_offset_of(rest, (i - 1) as nat) as int;
        let off = byte_offset_of(s, i) as int;
        let c = s.take(w);
        assert(c[0] == s[0]);
        assert(c.len() == w);
        assert(c.skip(w) =~= Seq::<u8>::empty());
        assert(well_formed(Seq::<u8>::empty()));
        assert(char_count(Seq::<u8>::empty()) == 0);
        assert forall|j: int| 1 <= j < w implies is_cont(c[j]) by {
            assert(c[j] == s[j]);
        }
        assert(well_formed(c));
        assert(step_width(c) == w);
        assert(char_count(c) == 1);
        assert(s.take(off) =~= c + rest.take(o1));
        lemma_wf_concat(c, rest.take(o1));
        lemma_cc_concat(c, rest.take(o1));
    }
}

/// Cutting a row at a character boundary keeps the back made of complete
/// characters, the remaining ones.
pub proof fn lemma_wf_skip(s: Seq<u8>, i: nat)
    requires
        well_formed(s),
        i <= char_count(s),
    ensures
        byte_offset_of(s, i) <= s.len(),
        well_formed(s.skip(byte_offset_of(s, i) as int)),
        char_count(s.skip(byte_offset_of(s, i) as int)) == char_count(s) - i,
    decreases i,
{
    lemma_offset_le_len(s, i);
    if i == 0 {
        assert(s.skip(0) =~= s);
    } else {
        let w = lead_width(s[0]) as int;
        let rest = s.skip(w);
        lemma_wf_skip(rest, (i - 1) as nat);
        let o1 = byte_offset_of(rest, (i - 1) as nat) as int;
        assert(s.skip(w + o1) =~= rest.skip(o1));
    }
}

/// The next character's offset is the current one plus the width of the
/// character standing there.
pub proof fn lemma_offset_succ(s: Seq<u8>, i: nat)
    requires
        well_formed(s),
        i < char_count(s),
    ensures
        byte_offset_of(s, i) <= s.len(),
        byte_offset_of(s, (i + 1) as nat) == byte_offset_of(s, i) + step_width(
            s.skip(byte_offset_of(s, i) as int),
        ),
        byte_offset_of(s, (i + 1) as nat) <= s.len(),
    decreases i,
{
    let off = byte_offset_of(s, i) as int;
    lemma_wf_take(s, i);
    lemma_wf_skip(s, i);
    let a = s.take(off);
    let b = s.skip(off);
    assert(s =~= a + b);
    lemma_off_concat_hi(a, b, (i + 1) as nat);
    assert(byte_offset_of(b, 1) == step_width(b) + byte_offset_of(
        b.skip(step_width(b) as int),
        0,
    ));
    lemma_offset_le_len(s, (i + 1) as nat);
}

/// Width of the character starting at lead byte `b`; zero when `b` is no lead byte.
pub fn lead_width_of(b: u8) -> (w: usize)
    ensures
        w == lead_width(b),
{
    if b < 0x80 {
        1
    } else if b < 0xC2 {
        0
    } else if b < 0xE0 {
        2
    } else if b < 0xF0 {
        3
    } else if b < 0xF5 {
        4
    } else {
        0
    }
}

/// True of the bytes that can only stand inside a character.
pub fn is_cont_byte(b: u8) -> (r: bool)
    ensures
        r == is_cont(b),
{
    0x80 <= b && b < 0xC0
}

/// Decides whether `s` consists of complete characters.
pub fn is_well_formed(s: &Vec<u8>) -> (r: bool)
    ensures
        r == well_formed(s@),
{
    let n = s.len();
    let mut i: usize = 0;
    proof {
        assert(s@.skip(0) =~= s@);
    }
    while i < n
        invariant
            i <= n,
            n == s@.len(),
            well_formed(s@) == well_formed(s@.skip(i as int)),
        decreases n - i,
    {
        let w = lead_width_of(s[i]);
        if w == 0 || w > n - i {
            assert(!well_formed(s@.skip(i as int)));
            return false;
        }
        if w >= 2 && !is_cont_byte(s[i + 1]) {
            assert(s@.skip(i as int)[1] == s@[i + 1]);
            assert(!well_formed(s@.skip(i as int)));
            return false;
        }
        if w >= 3 && !is_cont_byte(s[i + 2]) {
            assert(s@.skip(i as int)[2] == s@[i + 2]);
            assert(!well_formed(s@.skip(i as int)));
            return false;
        }
        if w >= 4 && !is_cont_byte(s[i + 3]) {
            assert(s@.skip(i as int)[3] == s@[i + 3]);
            assert(!well_formed(s@.skip(i as int)));
            return false;
        }
        proof {
            let sv = s@.skip(i as int);
            assert forall|j: int| 1 <= j < w implies is_cont(sv[j]) by {
                assert(sv[j] == s@[i + j]);
            }
            assert(s@.skip(i as int).skip(w as int) =~= s@.skip(i + w));
        }
        i = i + w;
    }
    assert(s@.skip(n as int) =~= Seq::<u8>::empty());
    true
}

} // verus!
