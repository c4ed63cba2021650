//! The frame decoder: parses exactly one frame from the front of a byte
//! string, telling truncated input apart from input no completion can mend.
use vstd::prelude::*;

verus! {

use crate::dec::{
    all_digits, canon_digits, dec_of, is_digit, lemma_dec_of_canon, lemma_dec_of_val_of,
    lemma_val_of_dec_of, val_of,
};
use crate::frame::{
    crlf, deep_list, encode_all, encode_of, extendable, lemma_deep_list, lemma_encode_all_append,
    lemma_encode_all_one, lemma_wf_list_index, line_free, no_parse, parses_to, prefix_of, wf_list,
    FrameSpec, Resp, ARRAY_MARK, BULK_MARK, CR, LF, SIMPLE_MARK,
};

broadcast use vstd::std_specs::vec::axiom_vec_decreases_to_view, vstd::seq::axiom_seq_index_decreases, vstd::seq::axiom_seq_subrange_decreases;

/// Why one frame could not be taken off the front of the input.
#[derive(Clone, Copy, Debug, PartialEq, Eq, Structural)]
pub enum DecodeError {
    /// The input ends in the middle of a frame: reading more bytes may
    /// complete it.
    Incomplete,
    /// The input does not open any frame, however it may be extended.
    Malformed,
}

/// Byte-for-byte positions inside the encoding of a simple string.
pub proof fn lemma_enc_simple_index(s: Seq<u8>)
    ensures
        encode_of(FrameSpec::Simple(s)).len() == s.len() + 3,
        encode_of(FrameSpec::Simple(s))[0] == SIMPLE_MARK,
        forall|i: int|
            0 <= i < s.len() ==> encode_of(FrameSpec::Simple(s))[i + 1] == s[i],
        encode_of(FrameSpec::Simple(s))[s.len() as int + 1] == CR,
        encode_of(FrameSpec::Simple(s))[s.len() as int + 2] == LF,
{
    let e = encode_of(FrameSpec::Simple(s));
    assert(e =~= seq![SIMPLE_MARK] + s + crlf());
}

/// Byte-for-byte positions inside the encoding of a bulk string.
pub proof fn lemma_enc_bulk_index(s: Seq<u8>)
    ensures
        ({
            let d = dec_of(s.len());
            let e = encode_of(FrameSpec::Bulk(s));
            &&& e.len() == s.len() + d.len() + 5
            &&& e[0] == BULK_MARK
            &&& forall|i: int| 0 <= i < d.len() ==> e[i + 1] == d[i]
            &&& e[d.len() as int + 1] == CR
            &&& e[d.len() as int + 2] == LF
            &&& forall|i: int| 0 <= i < s.len() ==> e[d.len() + 3 + i] == s[i]
            &&& e[d.len() as int + s.len() as int + 3] == CR
            &&& e[d.len() as int + s.len() as int + 4] == LF
        }),
{
    let d = dec_of(s.len());
    let e = encode_of(FrameSpec::Bulk(s));
    assert(e =~= seq![BULK_MARK] + d + crlf() + s + crlf());
}

/// Byte-for-byte positions inside the encoding of an array.
pub proof fn lemma_enc_array_index(items: Seq<FrameSpec>)
    ensures
        ({
            let d = dec_of(items.len());
            let e = encode_of(FrameSpec::Array(items));
            let body = encode_all(items);
            &&& e.len() == d.len() + 3 + body.len()
            &&& e[0] == ARRAY_MARK
            &&& forall|i: int| 0 <= i < d.len() ==> e[i + 1] == d[i]
            &&& e[d.len() as int + 1] == CR
            &&& e[d.len() as int + 2] == LF
            &&& forall|i: int| 0 <= i < body.len() ==> e[d.len() + 3 + i] == body[i]
        }),
{
    let d = dec_of(items.len());
    let e = encode_of(FrameSpec::Array(items));
    assert(e =~= seq![ARRAY_MARK] + d + crlf() + encode_all(items));
}

/// The first position at or past `from` holding a CR or LF byte.
fn scan_line_break(input: &[u8], from: usize) -> (r: Option<usize>)
    requires
        from <= input@.len(),
    ensures
        r matches Some(j) ==> from <= j < input@.len() && (input@[j as int] == CR
            || input@[j as int] == LF) && line_free(input@.subrange(from as int, j as int)),
        r is None ==> line_free(input@.skip(from as int)),
{
    let mut i: usize = from;
    while i < input.len()
        invariant
            from <= i <= input@.len(),
            line_free(input@.subrange(from as int, i as int)),
        decreases input@.len() - i,
    {
        let b = input[i];
        if b == CR || b == LF {
            return Some(i);
        }
        proof {
            assert(input@.subrange(from as int, i + 1) =~= input@.subrange(from as int, i as int)
                + seq![input@[i as int]]);
        }
        i = i + 1;
    }
    proof {
        assert(input@.skip(from as int) =~= input@.subrange(from as int, input@.len() as int));
    }
    None
}

/// The first position at or past `from` holding a non-digit byte.
fn scan_digits(input: &[u8], from: usize) -> (j: usize)
    requires
        from <= input@.len(),
    ensures
        from <= j <= input@.len(),
        all_digits(input@.subrange(from as int, j as int)),
        j < input@.len() ==> !is_digit(input@[j as int]),
{
    let mut i: usize = from;
    while i < input.len()
        invariant
            from <= i <= input@.len(),
            all_digits(input@.subrange(from as int, i as int)),
        decreases input@.len() - i,
    {
        let b = input[i];
        if b < 48 || b > 57 {
            return i;
        }
        proof {
            assert(input@.subrange(from as int, i + 1) =~= input@.subrange(from as int, i as int)
                + seq![input@[i as int]]);
        }
        i = i + 1;
    }
    i
}

/// A maximal digit run after the marker pins the length line of any
/// encoding that opens the same bytes: the digits must be exactly the
/// canonical rendering of the length, and the run must end in CR.
pub proof fn lemma_pin_len_line(bytes: Seq<u8>, digits: Seq<u8>, m: nat, e: Seq<u8>)
    requires
        bytes.len() >= digits.len() + 2,
        forall|k: int| 0 <= k < digits.len() ==> bytes[k + 1] == digits[k],
        all_digits(digits),
        !is_digit(bytes[digits.len() as int + 1]),
        digits.len() > 1 ==> digits[0] != 48,
        e.len() >= dec_of(m).len() + 2,
        forall|i: int| 0 <= i < dec_of(m).len() ==> e[i + 1] == dec_of(m)[i],
        e[dec_of(m).len() as int + 1] == CR,
        prefix_of(bytes, e) || prefix_of(e, bytes),
    ensures
        dec_of(m) == digits,
        m == val_of(digits),
        bytes[digits.len() as int + 1] == CR,
{
    let d = dec_of(m);
    lemma_dec_of_canon(m);
    if d.len() < digits.len() {
        // the line would end inside the digit run
        let p = d.len() as int + 1;
        assert(e[p] == CR);
        assert(bytes[p] == digits[p - 1]);
        assert(is_digit(digits[p - 1]));
        assert(false);
    } else if d.len() > digits.len() {
        // the line would run past the digit run into a non-digit
        let p = digits.len() as int + 1;
        assert(e[p] == d[p - 1]);
        assert(is_digit(d[p - 1]));
        assert(false);
    } else {
        assert forall|k: int| 0 <= k < digits.len() implies digits[k] == d[k] by {
            assert(bytes[k + 1] == digits[k]);
            assert(e[k + 1] == d[k]);
        }
        assert(d =~= digits);
        lemma_val_of_dec_of(m);
        assert(bytes[digits.len() as int + 1] == e[d.len() as int + 1]);
    }
}

/// A prefix of one piece extends to a prefix of any byte string that
/// continues with that piece.
pub proof fn lemma_prefix_extend(pre: Seq<u8>, t: Seq<u8>, ew: Seq<u8>, post: Seq<u8>)
    requires
        prefix_of(t, ew),
    ensures
        prefix_of(pre + t, pre + ew + post),
{
    let a = pre + t;
    let b = pre + ew + post;
    assert(a.len() <= b.len());
    assert forall|i: int| 0 <= i < a.len() implies a[i] == b[i] by {
        if i < pre.len() {
            assert(a[i] == pre[i]);
            assert(b[i] == pre[i]);
        } else {
            assert(a[i] == t[i - pre.len()]);
            assert(b[i] == ew[i - pre.len()]);
        }
    }
}

/// What comes after a prefix is the rest of the longer string.
pub proof fn lemma_prefix_split(a: Seq<u8>, b: Seq<u8>)
    requires
        prefix_of(a, b),
    ensures
        b == a + b.skip(a.len() as int),
{
    assert(b =~= a + b.skip(a.len() as int));
}

/// Takes one bulk-string frame off `input` at `from`, which must hold
/// the `$` marker.
#[verifier::rlimit(100)]
#[verifier::spinoff_prover]
fn decode_bulk(input: &[u8], from: usize) -> (r: Result<(Resp, usize), DecodeError>)
    requires
        from < input@.len(),
        input@[from as int] == BULK_MARK,
    ensures
        r matches Ok((f, end)) ==> from < end <= input@.len() && f.deep().wf() && input@.subrange(
            from as int,
            end as int,
        ) == encode_of(f.deep()),
        r is Err ==> no_parse(input@.skip(from as int)),
        r matches Err(e) && e == DecodeError::Incomplete ==> extendable(input@.skip(from as int)),
        r matches Err(e) && e == DecodeError::Malformed ==> !extendable(input@.skip(from as int)),
{
    let ghost bytes = input@.skip(from as int);
    let n = input.len();
    let dstart = from + 1;
    let dend = scan_digits(input, dstart);
    let ghost digits = input@.subrange(dstart as int, dend as int);
    let ghost dlen = digits.len() as int;
    proof {
        assert(bytes.len() == input@.len() - from);
        assert(forall|k: int| 0 <= k < bytes.len() ==> bytes[k] == input@[from + k]);
        assert(forall|k: int| 0 <= k < dlen ==> digits[k] == bytes[k + 1]);
    }
    if dend - dstart >= 2 && input[dstart] == 48 {
        // A leading zero fits no canonical length line.
        proof {
            assert(dlen >= 2);
            assert(digits[0] == bytes[1] && digits[1] == bytes[2]);
            assert(digits[0] == input@[dstart as int]);
            assert(bytes[1] == 48);
            assert(is_digit(digits[1]));
            assert(is_digit(bytes[2]));
            assert forall|f: FrameSpec| f.wf() implies !prefix_of(encode_of(f), bytes) && !(
            bytes.len() < encode_of(f).len() && prefix_of(bytes, encode_of(f))) by {
                crate::frame::lemma_enc_shape(f);
                if f is Bulk {
                    let s = f->Bulk_0;
                    let d = dec_of(s.len());
                    lemma_enc_bulk_index(s);
                    lemma_dec_of_canon(s.len());
                    let e = encode_of(f);
                    if prefix_of(encode_of(f), bytes) || prefix_of(bytes, encode_of(f)) {
                        if d[0] != 48 {
                            assert(e[1] == d[0]);
                            assert(bytes[1] == 48);
                            assert(false);
                        } else {
                            assert(d.len() == 1);
                            assert(e[2] == CR);
                            assert(bytes[2] != CR);
                            assert(false);
                        }
                    }
                } else {
                    if prefix_of(encode_of(f), bytes) || prefix_of(bytes, encode_of(f)) {
                        assert(encode_of(f)[0] == bytes[0]);
                        assert(false);
                    }
                }
            }
        }
        return Err(DecodeError::Malformed);
    }
    if dend == n {
        // The length line is still being received.
        proof {
            assert(bytes.len() == dlen + 1);
            assert forall|f: FrameSpec| f.wf() implies !prefix_of(encode_of(f), bytes) by {
                crate::frame::lemma_enc_shape(f);
                if f is Bulk {
                    let s = f->Bulk_0;
                    let d = dec_of(s.len());
                    lemma_enc_bulk_index(s);
                    lemma_dec_of_canon(s.len());
                    let e = encode_of(f);
                    if prefix_of(e, bytes) {
                        // the CR of the length line would land on a digit
                        assert(e.len() == s.len() + d.len() + 5);
                        assert(e[d.len() as int + 1] == CR);
                        assert(e[d.len() as int + 1] == bytes[d.len() as int + 1]);
                        assert(is_digit(digits[d.len() as int]));
                        assert(false);
                    }
                } else {
                    if prefix_of(encode_of(f), bytes) {
                        assert(encode_of(f)[0] == bytes[0]);
                        assert(false);
                    }
                }
            }
            // A value of the right shape can still follow.
            if dlen == 0 {
                let w = FrameSpec::Bulk(Seq::empty());
                lemma_enc_bulk_index(Seq::empty());
                lemma_dec_of_canon(0);
                assert(w.wf());
                assert(prefix_of(bytes, encode_of(w)));
                assert(bytes.len() < encode_of(w).len());
                assert(extendable(bytes));
            } else {
                let m = val_of(digits);
                assert(canon_digits(digits));
                lemma_dec_of_val_of(digits);
                let sw = Seq::new(m, |i: int| 0u8);
                let w = FrameSpec::Bulk(sw);
                lemma_enc_bulk_index(sw);
                assert(w.wf());
                assert(prefix_of(bytes, encode_of(w)));
                assert(bytes.len() < encode_of(w).len());
                assert(extendable(bytes));
            }
        }
        return Err(DecodeError::Incomplete);
    }
    // A terminator exists and the run has no leading zero.
    proof {
        assert(bytes.len() >= dlen + 2);
        assert(!is_digit(bytes[dlen + 1]));
        assert(dlen > 1 ==> digits[0] != 48);
    }
    if input[dend] != CR {
        // The length line ends in something other than CR LF.
        proof {
            assert(bytes[dlen + 1] != CR);
            assert forall|f: FrameSpec| f.wf() implies !prefix_of(encode_of(f), bytes) && !(
            bytes.len() < encode_of(f).len() && prefix_of(bytes, encode_of(f))) by {
                crate::frame::lemma_enc_shape(f);
                if f is Bulk {
                    let s = f->Bulk_0;
                    lemma_enc_bulk_index(s);
                    if prefix_of(encode_of(f), bytes) || prefix_of(bytes, encode_of(f)) {
                        lemma_pin_len_line(bytes, digits, s.len(), encode_of(f));
                        assert(false);
                    }
                } else {
                    if prefix_of(encode_of(f), bytes) || prefix_of(bytes, encode_of(f)) {
                        assert(encode_of(f)[0] == bytes[0]);
                        assert(false);
                    }
                }
            }
        }
        return Err(DecodeError::Malformed);
    }
    if dend == dstart {
        // No digits at all: `$` straight into CR.
        proof {
            assert(bytes[1] == CR && !is_digit(bytes[1]));
            assert forall|f: FrameSpec| f.wf() implies !prefix_of(encode_of(f), bytes) && !(
            bytes.len() < encode_of(f).len() && prefix_of(bytes, encode_of(f))) by {
                crate::frame::lemma_enc_shape(f);
                if f is Bulk {
                    let s = f->Bulk_0;
                    let d = dec_of(s.len());
                    lemma_enc_bulk_index(s);
                    lemma_dec_of_canon(s.len());
                    if prefix_of(encode_of(f), bytes) || prefix_of(bytes, encode_of(f)) {
                        assert(encode_of(f)[1] == d[0]);
                        assert(is_digit(d[0]));
                        assert(bytes[1] == CR);
                        assert(false);
                    }
                } else {
                    if prefix_of(encode_of(f), bytes) || prefix_of(bytes, encode_of(f)) {
                        assert(encode_of(f)[0] == bytes[0]);
                        assert(false);
                    }
                }
            }
        }
        return Err(DecodeError::Malformed);
    }
    proof {
        assert(canon_digits(digits));
        lemma_dec_of_val_of(digits);
    }
    let ghost m = val_of(digits);
    if dend + 1 == n {
        // CR seen, LF still to come.
        proof {
            assert(bytes.len() == dlen + 2);
            assert forall|f: FrameSpec| f.wf() implies !prefix_of(encode_of(f), bytes) by {
                crate::frame::lemma_enc_shape(f);
                if f is Bulk {
                    let s = f->Bulk_0;
                    lemma_enc_bulk_index(s);
                    if prefix_of(encode_of(f), bytes) {
                        lemma_pin_len_line(bytes, digits, s.len(), encode_of(f));
                        assert(encode_of(f).len() == s.len() + digits.len() + 5);
                        assert(encode_of(f).len() > bytes.len());
                        assert(false);
                    }
                } else {
                    if prefix_of(encode_of(f), bytes) {
                        assert(encode_of(f)[0] == bytes[0]);
                        assert(false);
                    }
                }
            }
            let sw = Seq::new(m, |i: int| 0u8);
            let w = FrameSpec::Bulk(sw);
            lemma_enc_bulk_index(sw);
            assert(w.wf());
            assert(prefix_of(bytes, encode_of(w)));
            assert(bytes.len() < encode_of(w).len());
            assert(extendable(bytes));
        }
        return Err(DecodeError::Incomplete);
    }
    if input[dend + 1] != LF {
        // CR not followed by LF fits no frame.
        proof {
            assert(bytes[dlen + 2] != LF);
            assert forall|f: FrameSpec| f.wf() implies !prefix_of(encode_of(f), bytes) && !(
            bytes.len() < encode_of(f).len() && prefix_of(bytes, encode_of(f))) by {
                crate::frame::lemma_enc_shape(f);
                if f is Bulk {
                    let s = f->Bulk_0;
                    lemma_enc_bulk_index(s);
                    if prefix_of(encode_of(f), bytes) || prefix_of(bytes, encode_of(f)) {
                        lemma_pin_len_line(bytes, digits, s.len(), encode_of(f));
                        assert(encode_of(f)[dlen + 2] == LF);
                        assert(false);
                    }
                } else {
                    if prefix_of(encode_of(f), bytes) || prefix_of(bytes, encode_of(f)) {
                        assert(encode_of(f)[0] == bytes[0]);
                        assert(false);
                    }
                }
            }
        }
        return Err(DecodeError::Malformed);
    }
    // The length line is complete: read its value.
    let digits_slice = vstd::slice::slice_subrange(input, dstart, dend);
    let parsed = crate::dec::parse_u64(digits_slice);
    let avail = n - (dend + 2);
    let ghost cstart = dend + 2 - from;
    proof {
        assert(forall|k: int|
            0 <= k < avail ==> #[trigger] bytes[cstart + k] == input@[dend + 2 + k]);
    }
    let too_big = match parsed {
        Some(v) => v > avail as u64,
        None => true,
    };
    if too_big {
        // The declared value needs more bytes than the input holds.
        proof {
            assert(m > avail) by {
                if parsed is Some {
                } else {
                    assert(val_of(digits) > u64::MAX);
                }
            }
            assert forall|f: FrameSpec| f.wf() implies !prefix_of(encode_of(f), bytes) by {
                crate::frame::lemma_enc_shape(f);
                if f is Bulk {
                    let s = f->Bulk_0;
                    lemma_enc_bulk_index(s);
                    if prefix_of(encode_of(f), bytes) {
                        lemma_pin_len_line(bytes, digits, s.len(), encode_of(f));
                        assert(s.len() == m);
                        assert(encode_of(f).len() == m + dlen + 5);
                        assert(bytes.len() == dlen + 3 + avail);
                        assert(false);
                    }
                } else {
                    if prefix_of(encode_of(f), bytes) {
                        assert(encode_of(f)[0] == bytes[0]);
                        assert(false);
                    }
                }
            }
            let sw = Seq::new(m, |i: int| if i < avail { bytes[cstart + i] } else { 0u8 });
            let w = FrameSpec::Bulk(sw);
            lemma_enc_bulk_index(sw);
            assert(w.wf());
            assert(prefix_of(bytes, encode_of(w))) by {
                let e = encode_of(w);
                assert(bytes.len() <= e.len());
                assert forall|i: int| 0 <= i < bytes.len() implies bytes[i] == e[i] by {
                    if i == 0 {
                    } else if i < dlen + 1 {
                        assert(e[i] == digits[i - 1]);
                    } else if i == dlen + 1 {
                        assert(e[i] == CR);
                    } else if i == dlen + 2 {
                        assert(e[i] == LF);
                    } else {
                        assert(e[i] == sw[i - (dlen + 3)]);
                    }
                }
            }
            assert(bytes.len() < encode_of(w).len());
            assert(extendable(bytes));
        }
        return Err(DecodeError::Incomplete);
    }
    let v = match parsed {
        Some(v) => v,
        None => 0,  // cannot happen: `too_big` covered it
    };
    let vlen = v as usize;
    let cend = dend + 2 + vlen;
    proof {
        assert(m == vlen);
        assert(cend <= n);
    }
    let ghost content = input@.subrange(dend + 2, cend as int);
    proof {
        assert(content.len() == m);
        assert(forall|k: int| 0 <= k < m ==> content[k] == bytes[cstart + k]);
    }
    if cend == n {
        // Content complete, final CR LF still to come.
        proof {
            assert(bytes.len() == dlen + 3 + m);
            assert forall|f: FrameSpec| f.wf() implies !prefix_of(encode_of(f), bytes) by {
                crate::frame::lemma_enc_shape(f);
                if f is Bulk {
                    let s = f->Bulk_0;
                    lemma_enc_bulk_index(s);
                    if prefix_of(encode_of(f), bytes) {
                        lemma_pin_len_line(bytes, digits, s.len(), encode_of(f));
                        assert(encode_of(f).len() == m + dlen + 5);
                        assert(false);
                    }
                } else {
                    if prefix_of(encode_of(f), bytes) {
                        assert(encode_of(f)[0] == bytes[0]);
                        assert(false);
                    }
                }
            }
            let w = FrameSpec::Bulk(content);
            lemma_enc_bulk_index(content);
            assert(w.wf());
            assert(prefix_of(bytes, encode_of(w))) by {
                let e = encode_of(w);
                assert forall|i: int| 0 <= i < bytes.len() implies bytes[i] == e[i] by {
                    if i == 0 {
                    } else if i < dlen + 1 {
                        assert(e[i] == digits[i - 1]);
                    } else if i == dlen + 1 {
                        assert(e[i] == CR);
                    } else if i == dlen + 2 {
                        assert(e[i] == LF);
                    } else {
                        assert(e[i] == content[i - (dlen + 3)]);
                    }
                }
            }
            assert(extendable(bytes));
        }
        return Err(DecodeError::Incomplete);
    }
    if input[cend] != CR {
        proof {
            assert(bytes[dlen + 3 + m] == input@[cend as int]);
            assert forall|f: FrameSpec| f.wf() implies !prefix_of(encode_of(f), bytes) && !(
            bytes.len() < encode_of(f).len() && prefix_of(bytes, encode_of(f))) by {
                crate::frame::lemma_enc_shape(f);
                if f is Bulk {
                    let s = f->Bulk_0;
                    lemma_enc_bulk_index(s);
                    if prefix_of(encode_of(f), bytes) || prefix_of(bytes, encode_of(f)) {
                        lemma_pin_len_line(bytes, digits, s.len(), encode_of(f));
                        assert(encode_of(f)[dlen + 3 + m] == CR);
                        assert(false);
                    }
                } else {
                    if prefix_of(encode_of(f), bytes) || prefix_of(bytes, encode_of(f)) {
                        assert(encode_of(f)[0] == bytes[0]);
                        assert(false);
                    }
                }
            }
        }
        return Err(DecodeError::Malformed);
    }
    if cend + 1 == n {
        proof {
            assert(bytes.len() == dlen + 4 + m);
            assert forall|f: FrameSpec| f.wf() implies !prefix_of(encode_of(f), bytes) by {
                crate::frame::lemma_enc_shape(f);
                if f is Bulk {
                    let s = f->Bulk_0;
                    lemma_enc_bulk_index(s);
                    if prefix_of(encode_of(f), bytes) {
                        lemma_pin_len_line(bytes, digits, s.len(), encode_of(f));
                        assert(encode_of(f).len() == m + dlen + 5);
                        assert(false);
                    }
                } else {
                    if prefix_of(encode_of(f), bytes) {
                        assert(encode_of(f)[0] == bytes[0]);
                        assert(false);
                    }
                }
            }
            let w = FrameSpec::Bulk(content);
            lemma_enc_bulk_index(content);
            assert(prefix_of(bytes, encode_of(w))) by {
                let e = encode_of(w);
                assert forall|i: int| 0 <= i < bytes.len() implies bytes[i] == e[i] by {
                    if i == 0 {
                    } else if i < dlen + 1 {
                        assert(e[i] == digits[i - 1]);
                    } else if i == dlen + 1 {
                        assert(e[i] == CR);
                    } else if i == dlen + 2 {
                        assert(e[i] == LF);
                    } else if i < dlen + 3 + m {
                        assert(e[i] == content[i - (dlen + 3)]);
                    } else {
                        assert(e[i] == CR);
                    }
                }
            }
            assert(extendable(bytes));
        }
        return Err(DecodeError::Incomplete);
    }
    if input[cend + 1] != LF {
        proof {
            assert(bytes[dlen + 4 + m] == input@[cend + 1]);
            assert forall|f: FrameSpec| f.wf() implies !prefix_of(encode_of(f), bytes) && !(
            bytes.len() < encode_of(f).len() && prefix_of(bytes, encode_of(f))) by {
                crate::frame::lemma_enc_shape(f);
                if f is Bulk {
                    let s = f->Bulk_0;
                    lemma_enc_bulk_index(s);
                    if prefix_of(encode_of(f), bytes) || prefix_of(bytes, encode_of(f)) {
                        lemma_pin_len_line(bytes, digits, s.len(), encode_of(f));
                        assert(encode_of(f)[dlen + 4 + m] == LF);
                        assert(false);
                    }
                } else {
                    if prefix_of(encode_of(f), bytes) || prefix_of(bytes, encode_of(f)) {
                        assert(encode_of(f)[0] == bytes[0]);
                        assert(false);
                    }
                }
            }
        }
        return Err(DecodeError::Malformed);
    }
    let body = vstd::slice::slice_subrange(input, dend + 2, cend);
    let f = Resp::BulkString(vstd::slice::slice_to_vec(body));
    proof {
        lemma_enc_bulk_index(content);
        assert(f.deep() == FrameSpec::Bulk(content));
        let e = encode_of(f.deep());
        assert(input@.subrange(from as int, cend + 2) =~= e) by {
            assert(e.len() == m + dlen + 5);
            assert forall|i: int| 0 <= i < e.len() implies input@.subrange(from as int, cend + 2)[i]
                == e[i] by {
                assert(input@.subrange(from as int, cend + 2)[i] == bytes[i]);
                if i == 0 {
                } else if i < dlen + 1 {
                    assert(e[i] == digits[i - 1]);
                } else if i == dlen + 1 {
                    assert(e[i] == CR);
                } else if i == dlen + 2 {
                    assert(e[i] == LF);
                } else if i < dlen + 3 + m {
                    assert(e[i] == content[i - (dlen + 3)]);
                } else if i == dlen + 3 + m {
                    assert(e[i] == CR);
                    assert(bytes[i] == input@[cend as int]);
                } else {
                    assert(e[i] == LF);
                    assert(bytes[i] == input@[cend + 1]);
                }
            }
        }
    }
    Ok((f, cend + 2))
}

/// Takes one simple-string frame off `input` at `from`, which must hold
/// the `+` marker.
fn decode_simple(input: &[u8], from: usize) -> (r: Result<(Resp, usize), DecodeError>)
    requires
        from < input@.len(),
        input@[from as int] == SIMPLE_MARK,
    ensures
        r matches Ok((f, end)) ==> from < end <= input@.len() && f.deep().wf() && input@.subrange(
            from as int,
            end as int,
        ) == encode_of(f.deep()),
        r is Err ==> no_parse(input@.skip(from as int)),
        r matches Err(e) && e == DecodeError::Incomplete ==> extendable(input@.skip(from as int)),
        r matches Err(e) && e == DecodeError::Malformed ==> !extendable(input@.skip(from as int)),
{
    let ghost bytes = input@.skip(from as int);
    let n = input.len();
    proof {
        assert(bytes.len() == input@.len() - from);
        assert(forall|k: int| 0 <= k < bytes.len() ==> bytes[k] == input@[from + k]);
    }
    match scan_line_break(input, from + 1) {
        None => {
            // Every byte after the marker could still belong to the line.
            proof {
                let ghost tail = input@.skip(from as int + 1);
                assert(forall|k: int| 0 <= k < tail.len() ==> tail[k] == bytes[k + 1]);
                // No complete frame: a simple string would need a CR.
                assert forall|f: FrameSpec| f.wf() implies !prefix_of(
                    encode_of(f),
                    bytes,
                ) by {
                    crate::frame::lemma_enc_shape(f);
                    match f {
                        FrameSpec::Simple(s) => {
                            lemma_enc_simple_index(s);
                            if prefix_of(encode_of(f), bytes) {
                                assert(encode_of(f)[s.len() as int + 1] == CR);
                                assert(bytes[s.len() as int + 1] == tail[s.len() as int]);
                                assert(false);
                            }
                        },
                        FrameSpec::Bulk(_) => {
                            if prefix_of(encode_of(f), bytes) {
                                assert(encode_of(f)[0] == bytes[0]);
                                assert(false);
                            }
                        },
                        FrameSpec::Array(_) => {
                            if prefix_of(encode_of(f), bytes) {
                                assert(encode_of(f)[0] == bytes[0]);
                                assert(false);
                            }
                        },
                    }
                }
                // More input could complete the line.
                let w = FrameSpec::Simple(tail);
                lemma_enc_simple_index(tail);
                assert(w.wf());
                assert(prefix_of(bytes, encode_of(w)));
                assert(bytes.len() < encode_of(w).len());
                assert(extendable(bytes));
            }
            Err(DecodeError::Incomplete)
        },
        Some(j) => {
            let ghost q = j - from;
            let ghost content = input@.subrange(from as int + 1, j as int);
            proof {
                assert(forall|k: int| 0 <= k < content.len() ==> content[k] == bytes[k + 1]);
                assert(content.len() == q - 1);
                assert(line_free(content));
                assert(bytes[q] == input@[j as int]);
            }
            if input[j] == LF {
                // A LF with no CR before it fits no simple-string line,
                // now or ever.
                proof {
                    assert forall|f: FrameSpec| f.wf() implies !prefix_of(encode_of(f), bytes)
                        && !(bytes.len() < encode_of(f).len() && prefix_of(
                        bytes,
                        encode_of(f),
                    )) by {
                        crate::frame::lemma_enc_shape(f);
                        match f {
                            FrameSpec::Simple(s) => {
                                lemma_enc_simple_index(s);
                                let e = encode_of(f);
                                if s.len() < q - 1 {
                                    // the line would end before the LF
                                    assert(e[s.len() as int + 1] == CR);
                                    assert(bytes[s.len() as int + 1] == content[s.len() as int]);
                                    assert(bytes[s.len() as int + 1] != CR);
                                } else if s.len() == q - 1 {
                                    assert(e[q] == CR);
                                    assert(bytes[q] == LF);
                                } else {
                                    assert(e[q] == s[q - 1]);
                                    assert(s[q - 1] != LF);
                                    assert(bytes[q] == LF);
                                }
                            },
                            FrameSpec::Bulk(_) => {
                                assert(encode_of(f)[0] != bytes[0]);
                            },
                            FrameSpec::Array(_) => {
                                assert(encode_of(f)[0] != bytes[0]);
                            },
                        }
                    }
                }
                Err(DecodeError::Malformed)
            } else {
                // input[j] == CR
                if j + 1 == n {
                    // The line break is cut in half: wait for the LF.
                    proof {
                        assert(bytes.len() == q + 1);
                        assert forall|f: FrameSpec| f.wf() implies !prefix_of(
                            encode_of(f),
                            bytes,
                        ) by {
                            crate::frame::lemma_enc_shape(f);
                            match f {
                                FrameSpec::Simple(s) => {
                                    lemma_enc_simple_index(s);
                                    if prefix_of(encode_of(f), bytes) {
                                        assert(s.len() + 3 <= q + 1);
                                        assert(encode_of(f)[s.len() as int + 1] == CR);
                                        assert(bytes[s.len() as int + 1]
                                            == content[s.len() as int]);
                                        assert(false);
                                    }
                                },
                                FrameSpec::Bulk(_) => {
                                    if prefix_of(encode_of(f), bytes) {
                                        assert(encode_of(f)[0] == bytes[0]);
                                        assert(false);
                                    }
                                },
                                FrameSpec::Array(_) => {
                                    if prefix_of(encode_of(f), bytes) {
                                        assert(encode_of(f)[0] == bytes[0]);
                                        assert(false);
                                    }
                                },
                            }
                        }
                        let w = FrameSpec::Simple(content);
                        lemma_enc_simple_index(content);
                        assert(w.wf());
                        assert(prefix_of(bytes, encode_of(w)));
                        assert(bytes.len() < encode_of(w).len());
                        assert(extendable(bytes));
                    }
                    Err(DecodeError::Incomplete)
                } else if input[j + 1] == LF {
                    let body = vstd::slice::slice_subrange(input, from + 1, j);
                    let f = Resp::SimpleString(vstd::slice::slice_to_vec(body));
                    proof {
                        lemma_enc_simple_index(content);
                        assert(f.deep() == FrameSpec::Simple(content));
                        assert(input@.subrange(from as int, j + 2) =~= encode_of(f.deep()));
                    }
                    Ok((f, j + 2))
                } else {
                    // A CR not followed by LF fits no frame at all.
                    proof {
                        assert(bytes[q + 1] == input@[j + 1]);
                        assert(bytes[q + 1] != LF);
                        assert forall|f: FrameSpec| f.wf() implies !prefix_of(encode_of(f), bytes)
                            && !(bytes.len() < encode_of(f).len() && prefix_of(
                            bytes,
                            encode_of(f),
                        )) by {
                            crate::frame::lemma_enc_shape(f);
                            match f {
                                FrameSpec::Simple(s) => {
                                    lemma_enc_simple_index(s);
                                    let e = encode_of(f);
                                    if s.len() < q - 1 {
                                        assert(e[s.len() as int + 1] == CR);
                                        assert(bytes[s.len() as int + 1]
                                            == content[s.len() as int]);
                                        assert(bytes[s.len() as int + 1] != CR);
                                    } else if s.len() == q - 1 {
                                        assert(e[q + 1] == LF);
                                        assert(bytes[q + 1] != LF);
                                    } else {
                                        assert(e[q] == s[q - 1]);
                                        assert(s[q - 1] != CR);
                                        assert(bytes[q] == CR);
                                    }
                                },
                                FrameSpec::Bulk(_) => {
                                    assert(encode_of(f)[0] != bytes[0]);
                                },
                                FrameSpec::Array(_) => {
                                    assert(encode_of(f)[0] != bytes[0]);
                                },
                            }
                        }
                    }
                    Err(DecodeError::Malformed)
                }
            }
        },
    }
}

/// Lifts a child failure: when no frame parses at the tail, no whole
/// array parses at the head either.
#[verifier::rlimit(60)]
pub proof fn lemma_array_lift_no_parse(
    bytes: Seq<u8>,
    digits: Seq<u8>,
    m: nat,
    dvs: Seq<FrameSpec>,
    tail: Seq<u8>,
)
    requires
        bytes == (seq![ARRAY_MARK] + digits + crlf()) + encode_all(dvs) + tail,
        canon_digits(digits),
        m == val_of(digits),
        dec_of(m) == digits,
        wf_list(dvs),
        dvs.len() < m,
        no_parse(tail),
    ensures
        no_parse(bytes),
{
    let header = seq![ARRAY_MARK] + digits + crlf();
    let k = dvs.len() as int;
    assert(bytes.len() >= digits.len() + 2);
    assert(forall|i: int| 0 <= i < digits.len() ==> bytes[i + 1] == digits[i]);
    assert(bytes[digits.len() as int + 1] == CR);
    assert(bytes[0] == ARRAY_MARK);
    assert forall|g: FrameSpec| g.wf() implies !prefix_of(encode_of(g), bytes) by {
        crate::frame::lemma_enc_shape(g);
        if g is Array {
            let gs = g->Array_0;
            lemma_enc_array_index(gs);
            if prefix_of(encode_of(g), bytes) {
                lemma_pin_len_line(bytes, digits, gs.len(), encode_of(g));
                assert(gs.len() == m);
                let ext = bytes.skip(encode_of(g).len() as int);
                lemma_prefix_split(encode_of(g), bytes);
                let gheader = seq![ARRAY_MARK] + dec_of(gs.len()) + crlf();
                assert(encode_of(g) =~= gheader + encode_all(gs));
                assert(gheader =~= header);
                assert((gheader + encode_all(gs)) + ext =~= header + (encode_all(gs) + ext));
                assert(bytes =~= header + (encode_all(dvs) + tail));
                crate::frame::lemma_split_eq(
                    header,
                    encode_all(gs) + ext,
                    header,
                    encode_all(dvs) + tail,
                );
                lemma_wf_list_index(gs);
                crate::frame::lemma_prefix_free_list(dvs, gs, tail, ext);
                let grest = gs.skip(k);
                assert(grest.len() > 0);
                assert(tail =~= encode_all(grest) + ext);
                assert(encode_all(grest) == encode_of(grest[0]) + encode_all(grest.drop_first()));
                assert(tail =~= encode_of(grest[0]) + (encode_all(grest.drop_first()) + ext));
                assert(prefix_of(encode_of(grest[0]), tail));
                assert(grest[0] == gs[k]);
                assert(gs[k].wf());
                assert(false);
            }
        } else {
            if prefix_of(encode_of(g), bytes) {
                assert(encode_of(g)[0] == bytes[0]);
                assert(false);
            }
        }
    }
}

/// Lifts a child truncation: a completion of the failing frame, plus
/// empty frames for the rest of the count, completes the whole array.
#[verifier::rlimit(60)]
pub proof fn lemma_array_lift_extendable(
    bytes: Seq<u8>,
    digits: Seq<u8>,
    m: nat,
    dvs: Seq<FrameSpec>,
    tail: Seq<u8>,
)
    requires
        bytes == (seq![ARRAY_MARK] + digits + crlf()) + encode_all(dvs) + tail,
        canon_digits(digits),
        m == val_of(digits),
        dec_of(m) == digits,
        wf_list(dvs),
        dvs.len() < m,
        extendable(tail),
    ensures
        extendable(bytes),
{
    let header = seq![ARRAY_MARK] + digits + crlf();
    let k = dvs.len() as int;
    let wc = choose|wc: FrameSpec|
        wc.wf() && tail.len() < (#[trigger] encode_of(wc)).len() && prefix_of(tail, encode_of(wc));
    let fillers = Seq::new((m - dvs.len() - 1) as nat, |i: int| FrameSpec::Simple(Seq::empty()));
    let witems = dvs + seq![wc] + fillers;
    assert(witems.len() == m);
    let w = FrameSpec::Array(witems);
    lemma_wf_list_index(dvs);
    lemma_wf_list_index(fillers);
    lemma_wf_list_index(witems);
    assert forall|i: int| 0 <= i < witems.len() implies #[trigger] witems[i].wf() by {
        if i < dvs.len() {
            assert(witems[i] == dvs[i]);
        } else if i == dvs.len() {
            assert(witems[i] == wc);
        } else {
            assert(witems[i] == fillers[i - dvs.len() - 1]);
        }
    }
    assert(w.wf());
    lemma_enc_array_index(witems);
    lemma_encode_all_append(dvs + seq![wc], fillers);
    lemma_encode_all_append(dvs, seq![wc]);
    lemma_encode_all_one(wc);
    assert((dvs + seq![wc]) + fillers =~= witems);
    let e = encode_of(w);
    assert(e =~= header + encode_all(witems)) by {
        assert(dec_of(witems.len()) == digits);
    }
    assert(encode_all(witems) =~= encode_all(dvs) + encode_of(wc) + encode_all(fillers));
    assert(e =~= ((header + encode_all(dvs)) + encode_of(wc)) + encode_all(fillers));
    lemma_prefix_extend(header + encode_all(dvs), tail, encode_of(wc), encode_all(fillers));
    assert((header + encode_all(dvs)) + tail =~= bytes);
    assert(prefix_of(bytes, e));
    assert(bytes.len() < e.len());
}

/// Lifts a dead child: when the tail neither holds a frame nor extends
/// to one, the whole array cannot be completed either.
#[verifier::rlimit(60)]
pub proof fn lemma_array_lift_not_extendable(
    bytes: Seq<u8>,
    digits: Seq<u8>,
    m: nat,
    dvs: Seq<FrameSpec>,
    tail: Seq<u8>,
)
    requires
        bytes == (seq![ARRAY_MARK] + digits + crlf()) + encode_all(dvs) + tail,
        canon_digits(digits),
        m == val_of(digits),
        dec_of(m) == digits,
        wf_list(dvs),
        dvs.len() < m,
        no_parse(tail),
        !extendable(tail),
    ensures
        !extendable(bytes),
{
    let header = seq![ARRAY_MARK] + digits + crlf();
    let k = dvs.len() as int;
    assert(bytes.len() >= digits.len() + 2);
    assert(forall|i: int| 0 <= i < digits.len() ==> bytes[i + 1] == digits[i]);
    assert(bytes[digits.len() as int + 1] == CR);
    assert(bytes[0] == ARRAY_MARK);
    assert forall|g: FrameSpec| g.wf() implies !(bytes.len() < encode_of(g).len() && prefix_of(
        bytes,
        encode_of(g),
    )) by {
        crate::frame::lemma_enc_shape(g);
        if g is Array {
            let gs = g->Array_0;
            lemma_enc_array_index(gs);
            if bytes.len() < encode_of(g).len() && prefix_of(bytes, encode_of(g)) {
                lemma_pin_len_line(bytes, digits, gs.len(), encode_of(g));
                assert(gs.len() == m);
                let ext = encode_of(g).skip(bytes.len() as int);
                lemma_prefix_split(bytes, encode_of(g));
                let gheader = seq![ARRAY_MARK] + dec_of(gs.len()) + crlf();
                assert(encode_of(g) =~= gheader + encode_all(gs));
                assert(gheader =~= header);
                assert(bytes + ext =~= header + (encode_all(dvs) + (tail + ext)));
                assert(encode_of(g) =~= header + (encode_all(gs) + Seq::<u8>::empty()));
                crate::frame::lemma_split_eq(
                    header,
                    encode_all(dvs) + (tail + ext),
                    header,
                    encode_all(gs) + Seq::<u8>::empty(),
                );
                lemma_wf_list_index(gs);
                crate::frame::lemma_prefix_free_list(dvs, gs, tail + ext, Seq::<u8>::empty());
                let grest = gs.skip(k);
                assert(grest.len() > 0);
                assert(tail + ext =~= encode_all(grest) + Seq::<u8>::empty());
                assert(encode_all(grest) == encode_of(grest[0]) + encode_all(grest.drop_first()));
                assert(grest[0] == gs[k]);
                assert(gs[k].wf());
                let ec = encode_of(grest[0]);
                crate::frame::lemma_enc_shape(grest[0]);
                if ec.len() <= tail.len() {
                    assert(prefix_of(ec, tail)) by {
                        assert forall|i: int| 0 <= i < ec.len() implies ec[i] == tail[i] by {
                            assert((tail + ext)[i] == tail[i]);
                            assert((encode_all(grest) + Seq::<u8>::empty())[i] == ec[i]);
                            assert((encode_of(grest[0]) + encode_all(grest.drop_first()))[i]
                                == ec[i]);
                        }
                    }
                    assert(false);
                } else {
                    assert(prefix_of(tail, ec)) by {
                        assert forall|i: int| 0 <= i < tail.len() implies tail[i] == ec[i] by {
                            assert((tail + ext)[i] == tail[i]);
                            assert((encode_all(grest) + Seq::<u8>::empty())[i] == ec[i]);
                            assert((encode_of(grest[0]) + encode_all(grest.drop_first()))[i]
                                == ec[i]);
                        }
                    }
                    assert(tail.len() < ec.len());
                    assert(extendable(tail));
                    assert(false);
                }
            }
        } else {
            if bytes.len() < encode_of(g).len() && prefix_of(bytes, encode_of(g)) {
                assert(encode_of(g)[0] == bytes[0]);
                assert(false);
            }
        }
    }
}

/// Parses exactly one frame starting at `from`, returning the position
/// just past it. An error says why no frame could be taken, and of what
/// kind the failure is, for the whole remaining input.
#[verifier::rlimit(100)]
#[verifier::spinoff_prover]
#[verifier::loop_isolation(false)]
pub(crate) fn decode_at(input: &[u8], from: usize) -> (r: Result<(Resp, usize), DecodeError>)
    requires
        from <= input@.len(),
    ensures
        r matches Ok((f, end)) ==> from < end <= input@.len() && f.deep().wf() && input@.subrange(
            from as int,
            end as int,
        ) == encode_of(f.deep()),
        r is Err ==> no_parse(input@.skip(from as int)),
        r matches Err(e) && e == DecodeError::Incomplete ==> extendable(input@.skip(from as int)),
        r matches Err(e) && e == DecodeError::Malformed ==> !extendable(input@.skip(from as int)),
    decreases input@.len() - from,
{
    let ghost bytes = input@.skip(from as int);
    let n = input.len();
    proof {
        assert(bytes.len() == input@.len() - from);
        assert(forall|k: int| 0 <= k < bytes.len() ==> bytes[k] == input@[from + k]);
    }
    if from == n {
        // Nothing yet: any frame could follow.
        proof {
            assert forall|f: FrameSpec| f.wf() implies !prefix_of(encode_of(f), bytes) by {
                crate::frame::lemma_enc_shape(f);
            }
            let w = FrameSpec::Simple(Seq::empty());
            lemma_enc_simple_index(Seq::empty());
            assert(w.wf());
            assert(prefix_of(bytes, encode_of(w)));
            assert(bytes.len() < encode_of(w).len());
            assert(extendable(bytes));
        }
        return Err(DecodeError::Incomplete);
    }
    let mark = input[from];
    if mark == SIMPLE_MARK {
        return decode_simple(input, from);
    }
    if mark == BULK_MARK {
        return decode_bulk(input, from);
    }
    if mark != ARRAY_MARK {
        // No frame opens with this byte, now or ever.
        proof {
            assert forall|f: FrameSpec| f.wf() implies !prefix_of(encode_of(f), bytes) && !(
            bytes.len() < encode_of(f).len() && prefix_of(bytes, encode_of(f))) by {
                crate::frame::lemma_enc_shape(f);
                if prefix_of(encode_of(f), bytes) || prefix_of(bytes, encode_of(f)) {
                    assert(encode_of(f)[0] == bytes[0]);
                    assert(false);
                }
            }
        }
        return Err(DecodeError::Malformed);
    }
    // An array: first its count line, then that many frames.
    let dstart = from + 1;
    let dend = scan_digits(input, dstart);
    let ghost digits = input@.subrange(dstart as int, dend as int);
    let ghost dlen = digits.len() as int;
    proof {
        assert(forall|k: int| 0 <= k < dlen ==> digits[k] == bytes[k + 1]);
    }
    if dend - dstart >= 2 && input[dstart] == 48 {
        proof {
            assert(dlen >= 2);
            assert(digits[0] == bytes[1] && digits[1] == bytes[2]);
            assert(digits[0] == input@[dstart as int]);
            assert(bytes[1] == 48);
            assert(is_digit(digits[1]));
            assert(is_digit(bytes[2]));
            assert forall|f: FrameSpec| f.wf() implies !prefix_of(encode_of(f), bytes) && !(
            bytes.len() < encode_of(f).len() && prefix_of(bytes, encode_of(f))) by {
                crate::frame::lemma_enc_shape(f);
                if f is Array {
                    let items = f->Array_0;
                    let d = dec_of(items.len());
                    lemma_enc_array_index(items);
                    lemma_dec_of_canon(items.len());
                    let e = encode_of(f);
                    if prefix_of(encode_of(f), bytes) || prefix_of(bytes, encode_of(f)) {
                        if d[0] != 48 {
                            assert(e[1] == d[0]);
                            assert(bytes[1] == 48);
                            assert(false);
                        } else {
                            assert(d.len() == 1);
                            assert(e[2] == CR);
                            assert(bytes[2] != CR);
                            assert(false);
                        }
                    }
                } else {
                    if prefix_of(encode_of(f), bytes) || prefix_of(bytes, encode_of(f)) {
                        assert(encode_of(f)[0] == bytes[0]);
                        assert(false);
                    }
                }
            }
        }
        return Err(DecodeError::Malformed);
    }
    if dend == n {
        // The count line is still being received.
        proof {
            assert(bytes.len() == dlen + 1);
            assert forall|f: FrameSpec| f.wf() implies !prefix_of(encode_of(f), bytes) by {
                crate::frame::lemma_enc_shape(f);
                if f is Array {
                    let items = f->Array_0;
                    let d = dec_of(items.len());
                    lemma_enc_array_index(items);
                    lemma_dec_of_canon(items.len());
                    let e = encode_of(f);
                    if prefix_of(e, bytes) {
                        assert(e.len() >= d.len() + 3);
                        assert(e[d.len() as int + 1] == CR);
                        assert(e[d.len() as int + 1] == bytes[d.len() as int + 1]);
                        assert(is_digit(digits[d.len() as int]));
                        assert(false);
                    }
                } else {
                    if prefix_of(encode_of(f), bytes) {
                        assert(encode_of(f)[0] == bytes[0]);
                        assert(false);
                    }
                }
            }
            if dlen == 0 {
                let w = FrameSpec::Array(Seq::empty());
                lemma_enc_array_index(Seq::empty());
                lemma_dec_of_canon(0);
                assert(wf_list(Seq::<FrameSpec>::empty()));
                assert(w.wf());
                assert(prefix_of(bytes, encode_of(w)));
                assert(bytes.len() < encode_of(w).len());
                assert(extendable(bytes));
            } else {
                let m = val_of(digits);
                assert(canon_digits(digits));
                lemma_dec_of_val_of(digits);
                let fillers = Seq::new(m, |i: int| FrameSpec::Simple(Seq::empty()));
                let w = FrameSpec::Array(fillers);
                lemma_enc_array_index(fillers);
                lemma_wf_list_index(fillers);
                assert(w.wf());
                assert(prefix_of(bytes, encode_of(w)));
                assert(bytes.len() < encode_of(w).len());
                assert(extendable(bytes));
            }
        }
        return Err(DecodeError::Incomplete);
    }
    proof {
        assert(bytes.len() >= dlen + 2);
        assert(!is_digit(bytes[dlen + 1]));
        assert(dlen > 1 ==> digits[0] != 48);
    }
    if input[dend] != CR {
        proof {
            assert(bytes[dlen + 1] != CR);
            assert forall|f: FrameSpec| f.wf() implies !prefix_of(encode_of(f), bytes) && !(
            bytes.len() < encode_of(f).len() && prefix_of(bytes, encode_of(f))) by {
                crate::frame::lemma_enc_shape(f);
                if f is Array {
                    let items = f->Array_0;
                    lemma_enc_array_index(items);
                    if prefix_of(encode_of(f), bytes) || prefix_of(bytes, encode_of(f)) {
                        lemma_pin_len_line(bytes, digits, items.len(), encode_of(f));
                        assert(false);
                    }
                } else {
                    if prefix_of(encode_of(f), bytes) || prefix_of(bytes, encode_of(f)) {
                        assert(encode_of(f)[0] == bytes[0]);
                        assert(false);
                    }
                }
            }
        }
        return Err(DecodeError::Malformed);
    }
    if dend == dstart {
        // No digits at all: `*` straight into CR.
        proof {
            assert(bytes[1] == CR && !is_digit(bytes[1]));
            assert forall|f: FrameSpec| f.wf() implies !prefix_of(encode_of(f), bytes) && !(
            bytes.len() < encode_of(f).len() && prefix_of(bytes, encode_of(f))) by {
                crate::frame::lemma_enc_shape(f);
                if f is Array {
                    let items = f->Array_0;
                    let d = dec_of(items.len());
                    lemma_enc_array_index(items);
                    lemma_dec_of_canon(items.len());
                    if prefix_of(encode_of(f), bytes) || prefix_of(bytes, encode_of(f)) {
                        assert(encode_of(f)[1] == d[0]);
                        assert(is_digit(d[0]));
                        assert(bytes[1] == CR);
                        assert(false);
                    }
                } else {
                    if prefix_of(encode_of(f), bytes) || prefix_of(bytes, encode_of(f)) {
                        assert(encode_of(f)[0] == bytes[0]);
                        assert(false);
                    }
                }
            }
        }
        return Err(DecodeError::Malformed);
    }
    proof {
        assert(canon_digits(digits));
        lemma_dec_of_val_of(digits);
    }
    let ghost m = val_of(digits);
    if dend + 1 == n {
        // CR seen, LF still to come.
        proof {
            assert(bytes.len() == dlen + 2);
            assert forall|f: FrameSpec| f.wf() implies !prefix_of(encode_of(f), bytes) by {
                crate::frame::lemma_enc_shape(f);
                if f is Array {
                    let items = f->Array_0;
                    lemma_enc_array_index(items);
                    if prefix_of(encode_of(f), bytes) {
                        lemma_pin_len_line(bytes, digits, items.len(), encode_of(f));
                        assert(encode_of(f).len() >= digits.len() + 3);
                        assert(false);
                    }
                } else {
                    if prefix_of(encode_of(f), bytes) {
                        assert(encode_of(f)[0] == bytes[0]);
                        assert(false);
                    }
                }
            }
            let fillers = Seq::new(m, |i: int| FrameSpec::Simple(Seq::empty()));
            let w = FrameSpec::Array(fillers);
            lemma_enc_array_index(fillers);
            lemma_wf_list_index(fillers);
            assert(w.wf());
            assert(prefix_of(bytes, encode_of(w)));
            assert(bytes.len() < encode_of(w).len());
            assert(extendable(bytes));
        }
        return Err(DecodeError::Incomplete);
    }
    if input[dend + 1] != LF {
        proof {
            assert(bytes[dlen + 2] != LF);
            assert forall|f: FrameSpec| f.wf() implies !prefix_of(encode_of(f), bytes) && !(
            bytes.len() < encode_of(f).len() && prefix_of(bytes, encode_of(f))) by {
                crate::frame::lemma_enc_shape(f);
                if f is Array {
                    let items = f->Array_0;
                    lemma_enc_array_index(items);
                    if prefix_of(encode_of(f), bytes) || prefix_of(bytes, encode_of(f)) {
                        lemma_pin_len_line(bytes, digits, items.len(), encode_of(f));
                        assert(encode_of(f)[dlen + 2] == LF);
                        assert(false);
                    }
                } else {
                    if prefix_of(encode_of(f), bytes) || prefix_of(bytes, encode_of(f)) {
                        assert(encode_of(f)[0] == bytes[0]);
                        assert(false);
                    }
                }
            }
        }
        return Err(DecodeError::Malformed);
    }
    // The count line is complete: read its value and the frames after it.
    let digits_slice = vstd::slice::slice_subrange(input, dstart, dend);
    let parsed = crate::dec::parse_u64(digits_slice);
    proof {
        assert(parsed matches Some(v) ==> v as nat == m);
        assert(parsed is None ==> m > u64::MAX);
    }
    let bound: u64 = match parsed {
        Some(v) => v,
        None => u64::MAX,
    };
    let body_start = dend + 2;
    let ghost header = bytes.take(dlen + 3);
    proof {
        assert(header =~= seq![ARRAY_MARK] + digits + crlf());
    }
    let mut elems: Vec<Resp> = Vec::new();
    let mut pos: usize = body_start;
    let mut k: u64 = 0;
    while k < bound
        invariant
            body_start <= pos <= n,
            k as int == elems@.len(),
            k as int <= pos - body_start,
            parsed matches Some(v) ==> bound == v && v as nat == m,
            parsed is None ==> bound == u64::MAX && m > u64::MAX,
            k <= bound,
            wf_list(deep_list(elems@)),
            deep_list(elems@).len() == k as int,
            input@.subrange(body_start as int, pos as int) == encode_all(deep_list(elems@)),
        decreases n - pos,
    {
        let ghost dvs = deep_list(elems@);
        let ghost tail = input@.skip(pos as int);
        proof {
            assert(k < bound);
            assert((k as nat) < m) by {
                if parsed is Some {
                } else {
                    assert(k <= u64::MAX);
                    assert(m > u64::MAX);
                }
            }
            assert(bytes =~= header + encode_all(dvs) + tail);
        }
        match decode_at(input, pos) {
            Ok((f, end)) => {
                proof {
                    // one more element: extend the consumed run
                    let fd = f.deep();
                    let dvs2 = deep_list(elems@.push(f));
                    lemma_deep_list(elems@.push(f));
                    lemma_deep_list(elems@);
                    assert(dvs2 =~= dvs + seq![fd]);
                    lemma_encode_all_append(dvs, seq![fd]);
                    lemma_encode_all_one(fd);
                    lemma_wf_list_index(dvs);
                    lemma_wf_list_index(dvs2);
                    assert(input@.subrange(body_start as int, end as int) =~= input@.subrange(
                        body_start as int,
                        pos as int,
                    ) + input@.subrange(pos as int, end as int));
                }
                elems.push(f);
                pos = end;
                k = k + 1;
            },
            Err(err) => {
                proof {
                    assert(bytes =~= (seq![ARRAY_MARK] + digits + crlf()) + encode_all(dvs)
                        + tail);
                    lemma_array_lift_no_parse(bytes, digits, m, dvs, tail);
                    if err == DecodeError::Incomplete {
                        lemma_array_lift_extendable(bytes, digits, m, dvs, tail);
                    } else {
                        assert(err == DecodeError::Malformed);
                        lemma_array_lift_not_extendable(bytes, digits, m, dvs, tail);
                    }
                }
                return Err(err);
            },
        }
    }
    // All frames of the count are in hand.
    proof {
        assert(k == bound);
        if parsed is None {
            assert(k as int <= pos - body_start);
            assert(pos <= n);
            assert(false);
        }
        assert(k as nat == m);
        let dvs = deep_list(elems@);
        let arr = FrameSpec::Array(dvs);
        lemma_enc_array_index(dvs);
        assert(dvs.len() == m);
        assert(dec_of(dvs.len()) == digits);
        assert(arr.wf());
        assert(input@.subrange(from as int, pos as int) =~= encode_of(arr)) by {
            assert(encode_of(arr) =~= header + encode_all(dvs));
            assert(input@.subrange(from as int, pos as int) =~= input@.subrange(
                from as int,
                body_start as int,
            ) + input@.subrange(body_start as int, pos as int));
            assert(input@.subrange(from as int, body_start as int) =~= header);
        }
    }
    let f = Resp::Array(elems);
    proof {
        assert(f.deep() == FrameSpec::Array(deep_list(elems@)));
    }
    Ok((f, pos))
}

impl Resp {
    /// Parses exactly one frame from the front of `input` and returns it
    /// with the unconsumed suffix, kept byte for byte. The error says
    /// whether more input could still complete a frame.
    pub fn new(input: &[u8]) -> (r: Result<(Resp, Vec<u8>), DecodeError>)
        ensures
            r matches Ok((f, rest)) ==> parses_to(input@, f.deep(), rest@),
            r is Err ==> no_parse(input@),
            r matches Err(e) && e == DecodeError::Incomplete ==> extendable(input@),
            r matches Err(e) && e == DecodeError::Malformed ==> !extendable(input@),
    {
        proof {
            assert(input@.skip(0) =~= input@);
        }
        match decode_at(input, 0) {
            Ok((f, end)) => {
                let rest = vstd::slice::slice_to_vec(
                    vstd::slice::slice_subrange(input, end, input.len()),
                );
                proof {
                    assert(input@ =~= input@.subrange(0, end as int) + input@.subrange(
                        end as int,
                        input@.len() as int,
                    ));
                }
                Ok((f, rest))
            },
            Err(e) => Err(e),
        }
    }
}

} // verus!
