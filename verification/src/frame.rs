//! The wire-format frame codec: a tagged frame value, its byte encoding,
//! and a decoder that parses exactly one frame from the front of a byte
//! string and keeps the unconsumed suffix.
use vstd::prelude::*;

verus! {

use crate::dec::{dec_of, u64_to_dec};

broadcast use vstd::std_specs::vec::axiom_vec_decreases_to_view, vstd::seq::axiom_seq_index_decreases, vstd::seq::axiom_seq_subrange_decreases;

pub const CR: u8 = 13;
pub const LF: u8 = 10;

/// The marker byte `+` opening a simple string.
pub const SIMPLE_MARK: u8 = 43;

/// The marker byte `$` opening a bulk string.
pub const BULK_MARK: u8 = 36;

/// The marker byte `*` opening an array.
pub const ARRAY_MARK: u8 = 42;

/// The two-byte line terminator.
pub open spec fn crlf() -> Seq<u8> {
    seq![CR, LF]
}

/// No byte of `s` is CR or LF.
pub open spec fn line_free(s: Seq<u8>) -> bool {
    forall|i: int| 0 <= i < s.len() ==> #[trigger] s[i] != CR && s[i] != LF
}

/// One frame of the wire grammar, as a mathematical value.
pub enum FrameSpec {
    Simple(Seq<u8>),
    Bulk(Seq<u8>),
    Array(Seq<FrameSpec>),
}

impl FrameSpec {
    /// A frame the grammar can carry: simple strings are single lines.
    pub open spec fn wf(self) -> bool
        decreases self,
    {
        match self {
            FrameSpec::Simple(s) => line_free(s),
            FrameSpec::Bulk(_) => true,
            FrameSpec::Array(items) => wf_list(items),
        }
    }
}

/// Every frame of the run can be carried by the grammar.
pub open spec fn wf_list(items: Seq<FrameSpec>) -> bool
    decreases items,
{
    items.len() == 0 || (items[0].wf() && wf_list(items.drop_first()))
}

/// A run of frames is well formed exactly when each of its frames is.
pub proof fn lemma_wf_list_index(items: Seq<FrameSpec>)
    ensures
        wf_list(items) <==> (forall|i: int| 0 <= i < items.len() ==> #[trigger] items[i].wf()),
    decreases items.len(),
{
    if items.len() > 0 {
        lemma_wf_list_index(items.drop_first());
        if wf_list(items) {
            assert forall|i: int| 0 <= i < items.len() implies #[trigger] items[i].wf() by {
                if i > 0 {
                    assert(items.drop_first()[i - 1] == items[i]);
                }
            }
        } else {
            if forall|i: int| 0 <= i < items.len() ==> #[trigger] items[i].wf() {
                assert forall|i: int|
                    0 <= i < items.drop_first().len() implies #[trigger] items.drop_first()[i].wf() by {
                    assert(items.drop_first()[i] == items[i + 1]);
                }
                assert(items[0].wf());
                assert(false);
            }
        }
    }
}

/// The byte encoding of one frame.
pub open spec fn encode_of(f: FrameSpec) -> Seq<u8>
    decreases f,
{
    match f {
        FrameSpec::Simple(s) => seq![SIMPLE_MARK] + s + crlf(),
        FrameSpec::Bulk(s) => seq![BULK_MARK] + dec_of(s.len()) + crlf() + s + crlf(),
        FrameSpec::Array(items) => seq![ARRAY_MARK] + dec_of(items.len()) + crlf() + encode_all(
            items,
        ),
    }
}

/// The concatenated encodings of a run of frames.
pub open spec fn encode_all(items: Seq<FrameSpec>) -> Seq<u8>
    decreases items,
{
    if items.len() == 0 {
        Seq::empty()
    } else {
        encode_of(items[0]) + encode_all(items.drop_first())
    }
}

/// The reply-only sentinel `$-1` followed by CR LF, meaning "no value".
pub open spec fn null_bulk_spec() -> Seq<u8> {
    seq![BULK_MARK, 45u8, 49u8, CR, LF]
}

/// One frame of the wire grammar. Commands and their arguments travel as
/// an `Array` of `BulkString`s; replies use all three forms.
#[derive(Debug, PartialEq, Eq)]
pub enum Resp {
    SimpleString(Vec<u8>),
    BulkString(Vec<u8>),
    Array(Vec<Resp>),
}

impl Resp {
    /// The mathematical value of the frame.
    pub open spec fn deep(self) -> FrameSpec
        decreases self,
    {
        match self {
            Resp::SimpleString(s) => FrameSpec::Simple(s@),
            Resp::BulkString(s) => FrameSpec::Bulk(s@),
            Resp::Array(items) => FrameSpec::Array(deep_list(items@)),
        }
    }
}

/// The mathematical values of a run of frames.
pub open spec fn deep_list(items: Seq<Resp>) -> Seq<FrameSpec>
    decreases items,
{
    if items.len() == 0 {
        Seq::empty()
    } else {
        seq![items[0].deep()] + deep_list(items.drop_first())
    }
}

pub proof fn lemma_deep_list(items: Seq<Resp>)
    ensures
        deep_list(items).len() == items.len(),
        forall|i: int| 0 <= i < items.len() ==> #[trigger] deep_list(items)[i] == items[i].deep(),
    decreases items.len(),
{
    if items.len() > 0 {
        lemma_deep_list(items.drop_first());
        assert forall|i: int| 0 <= i < items.len() implies #[trigger] deep_list(items)[i]
            == items[i].deep() by {
            if i > 0 {
                assert(items.drop_first()[i - 1] == items[i]);
            }
        }
    }
}

pub proof fn lemma_encode_all_append(a: Seq<FrameSpec>, b: Seq<FrameSpec>)
    ensures
        encode_all(a + b) == encode_all(a) + encode_all(b),
    decreases a.len(),
{
    if a.len() == 0 {
        assert(a + b =~= b);
        assert(encode_all(a) + encode_all(b) =~= encode_all(b));
    } else {
        assert((a + b).drop_first() =~= a.drop_first() + b);
        assert((a + b)[0] == a[0]);
        lemma_encode_all_append(a.drop_first(), b);
        assert(encode_of(a[0]) + (encode_all(a.drop_first()) + encode_all(b)) =~= (encode_of(a[0])
            + encode_all(a.drop_first())) + encode_all(b));
    }
}

pub proof fn lemma_encode_all_one(f: FrameSpec)
    ensures
        encode_all(seq![f]) == encode_of(f),
{
    reveal_with_fuel(encode_all, 2);
    assert(seq![f].drop_first() =~= Seq::<FrameSpec>::empty());
    assert(encode_of(f) + Seq::<u8>::empty() =~= encode_of(f));
}

impl Resp {
    /// Serializes the frame; total on every frame value.
    #[verifier::loop_isolation(false)]
    pub fn encode(&self) -> (r: Vec<u8>)
        ensures
            r@ == encode_of(self.deep()),
        decreases *self,
    {
        match self {
            Resp::SimpleString(s) => {
                let mut v: Vec<u8> = Vec::new();
                v.push(SIMPLE_MARK);
                let mut body = vstd::slice::slice_to_vec(s.as_slice());
                v.append(&mut body);
                v.push(CR);
                v.push(LF);
                proof {
                    assert(v@ =~= seq![SIMPLE_MARK] + s@ + crlf());
                }
                v
            },
            Resp::BulkString(s) => {
                let mut v: Vec<u8> = Vec::new();
                v.push(BULK_MARK);
                let mut len = u64_to_dec(s.len() as u64);
                v.append(&mut len);
                v.push(CR);
                v.push(LF);
                let mut body = vstd::slice::slice_to_vec(s.as_slice());
                v.append(&mut body);
                v.push(CR);
                v.push(LF);
                proof {
                    assert(v@ =~= seq![BULK_MARK] + dec_of(s@.len()) + crlf() + s@ + crlf());
                }
                v
            },
            Resp::Array(items) => {
                let mut v: Vec<u8> = Vec::new();
                v.push(ARRAY_MARK);
                let mut len = u64_to_dec(items.len() as u64);
                v.append(&mut len);
                v.push(CR);
                v.push(LF);
                let ghost dv = deep_list(items@);
                proof {
                    lemma_deep_list(items@);
                }
                let ghost header = seq![ARRAY_MARK] + dec_of(dv.len()) + crlf();
                proof {
                    assert(v@ =~= header);
                }
                let n = items.len();
                let mut i: usize = 0;
                while i < n
                    invariant
                        0 <= i <= n,
                        n == items@.len(),
                        dv == deep_list(items@),
                        dv.len() == items@.len(),
                        forall|j: int| 0 <= j < items@.len() ==> #[trigger] dv[j] == items@[j].deep(),
                        v@ == header + encode_all(dv.take(i as int)),
                    decreases n - i,
                {
                    let mut piece = items[i].encode();
                    v.append(&mut piece);
                    proof {
                        assert(items@[i as int].deep() == dv[i as int]);
                        assert(dv.take(i + 1) =~= dv.take(i as int) + seq![dv[i as int]]);
                        lemma_encode_all_append(dv.take(i as int), seq![dv[i as int]]);
                        lemma_encode_all_one(dv[i as int]);
                    }
                    i = i + 1;
                }
                proof {
                    assert(dv.take(dv.len() as int) =~= dv);
                }
                v
            },
        }
    }
}

/// `a` stands byte for byte at the front of `b`.
pub open spec fn prefix_of(a: Seq<u8>, b: Seq<u8>) -> bool {
    a.len() <= b.len() && forall|i: int| 0 <= i < a.len() ==> a[i] == b[i]
}

/// `f` stands encoded at the front of `bytes` and `rest` follows it.
pub open spec fn parses_to(bytes: Seq<u8>, f: FrameSpec, rest: Seq<u8>) -> bool {
    f.wf() && bytes == encode_of(f) + rest
}

/// No frame stands whole at the front of `bytes`.
pub open spec fn no_parse(bytes: Seq<u8>) -> bool {
    forall|f: FrameSpec| f.wf() ==> !prefix_of(#[trigger] encode_of(f), bytes)
}

/// `bytes` is a strict prefix of some frame's encoding, so more input
/// could still complete a frame.
pub open spec fn extendable(bytes: Seq<u8>) -> bool {
    exists|f: FrameSpec|
        f.wf() && bytes.len() < (#[trigger] encode_of(f)).len() && prefix_of(
            bytes,
            encode_of(f),
        )
}

pub proof fn lemma_split_eq(a1: Seq<u8>, b1: Seq<u8>, a2: Seq<u8>, b2: Seq<u8>)
    requires
        a1 + b1 == a2 + b2,
        a1.len() == a2.len(),
    ensures
        a1 == a2,
        b1 == b2,
{
    assert((a1 + b1).len() == a1.len() + b1.len());
    assert((a2 + b2).len() == a2.len() + b2.len());
    assert forall|i: int| 0 <= i < a1.len() implies a1[i] == a2[i] by {
        assert((a1 + b1)[i] == a1[i]);
        assert((a2 + b2)[i] == a2[i]);
    }
    assert(a1 =~= a2);
    assert forall|i: int| 0 <= i < b1.len() implies b1[i] == b2[i] by {
        assert((a1 + b1)[a1.len() + i] == b1[i]);
        assert((a2 + b2)[a2.len() + i] == b2[i]);
    }
    assert(b1.len() == b2.len());
    assert(b1 =~= b2);
}

/// The marker byte and the least length of every encoding.
pub proof fn lemma_enc_shape(f: FrameSpec)
    ensures
        encode_of(f).len() >= 3,
        f is Simple ==> encode_of(f)[0] == SIMPLE_MARK,
        f is Bulk ==> encode_of(f)[0] == BULK_MARK,
        f is Array ==> encode_of(f)[0] == ARRAY_MARK,
{
    match f {
        FrameSpec::Simple(s) => {
            assert(encode_of(f) == seq![SIMPLE_MARK] + s + crlf());
        },
        FrameSpec::Bulk(s) => {
            crate::dec::lemma_dec_of_canon(s.len());
        },
        FrameSpec::Array(items) => {
            crate::dec::lemma_dec_of_canon(items.len());
        },
    }
}

/// Two canonical digit lines that open the same byte string are the same
/// line: the terminating CR cannot be mistaken for a digit.
pub proof fn lemma_digit_line(a: Seq<u8>, b: Seq<u8>, x: Seq<u8>, y: Seq<u8>)
    requires
        crate::dec::canon_digits(a),
        crate::dec::canon_digits(b),
        a + seq![CR] + x == b + seq![CR] + y,
    ensures
        a == b,
        x == y,
{
    let l = a + seq![CR] + x;
    let r = b + seq![CR] + y;
    if a.len() < b.len() {
        assert(l[a.len() as int] == CR);
        assert(r[a.len() as int] == b[a.len() as int]);
        assert(crate::dec::is_digit(b[a.len() as int]));
        assert(false);
    } else if b.len() < a.len() {
        assert(r[b.len() as int] == CR);
        assert(l[b.len() as int] == a[b.len() as int]);
        assert(crate::dec::is_digit(a[b.len() as int]));
        assert(false);
    } else {
        assert(a + (seq![CR] + x) =~= a + seq![CR] + x);
        assert(b + (seq![CR] + y) =~= b + seq![CR] + y);
        lemma_split_eq(a, seq![CR] + x, b, seq![CR] + y);
        lemma_split_eq(seq![CR], x, seq![CR], y);
    }
}

/// The encodings of well-formed frames are prefix-free: whenever two
/// encoded frames open the same byte string, they are the same frame and
/// are followed by the same residual. Together with the decoder's
/// contract this gives the codec round trip: decoding
/// `encode(f) ++ extra` can only yield `(f, extra)`, and decoding
/// `encode(f)` alone can only yield `(f, empty)`.
#[verifier::rlimit(100)]
pub proof fn lemma_prefix_free(f1: FrameSpec, f2: FrameSpec, b1: Seq<u8>, b2: Seq<u8>)
    requires
        f1.wf(),
        f2.wf(),
        encode_of(f1) + b1 == encode_of(f2) + b2,
    ensures
        f1 == f2,
        b1 == b2,
    decreases f1,
{
    let l = encode_of(f1) + b1;
    lemma_enc_shape(f1);
    lemma_enc_shape(f2);
    assert(l[0] == encode_of(f1)[0]);
    assert(l[0] == encode_of(f2)[0]);
    match f1 {
        FrameSpec::Simple(s1) => {
            assert(f2 is Simple) by {
                if f2 is Bulk {
                    assert(false);
                }
                if f2 is Array {
                    assert(false);
                }
            }
            let s2 = f2->Simple_0;
            let r1 = s1 + crlf() + b1;
            let r2 = s2 + crlf() + b2;
            assert(seq![SIMPLE_MARK] + (r1) =~= (seq![SIMPLE_MARK] + s1 + crlf()) + b1);
            assert(seq![SIMPLE_MARK] + (r2) =~= (seq![SIMPLE_MARK] + s2 + crlf()) + b2);
            lemma_split_eq(seq![SIMPLE_MARK], r1, seq![SIMPLE_MARK], r2);
            if s1.len() < s2.len() {
                assert(r1[s1.len() as int] == CR);
                assert(r2[s1.len() as int] == s2[s1.len() as int]);
                assert(false);
            } else if s2.len() < s1.len() {
                assert(r2[s2.len() as int] == CR);
                assert(r1[s2.len() as int] == s1[s2.len() as int]);
                assert(false);
            } else {
                assert(s1 + (crlf() + b1) =~= r1);
                assert(s2 + (crlf() + b2) =~= r2);
                lemma_split_eq(s1, crlf() + b1, s2, crlf() + b2);
                lemma_split_eq(crlf(), b1, crlf(), b2);
            }
        },
        FrameSpec::Bulk(s1) => {
            assert(f2 is Bulk) by {
                if f2 is Simple {
                    assert(false);
                }
                if f2 is Array {
                    assert(false);
                }
            }
            let s2 = f2->Bulk_0;
            let d1 = dec_of(s1.len());
            let d2 = dec_of(s2.len());
            crate::dec::lemma_dec_of_canon(s1.len());
            crate::dec::lemma_dec_of_canon(s2.len());
            let r1 = d1 + seq![CR] + (seq![LF] + s1 + crlf() + b1);
            let r2 = d2 + seq![CR] + (seq![LF] + s2 + crlf() + b2);
            assert(seq![BULK_MARK] + r1 =~= (seq![BULK_MARK] + d1 + crlf() + s1 + crlf()) + b1);
            assert(seq![BULK_MARK] + r2 =~= (seq![BULK_MARK] + d2 + crlf() + s2 + crlf()) + b2);
            lemma_split_eq(seq![BULK_MARK], r1, seq![BULK_MARK], r2);
            lemma_digit_line(d1, d2, seq![LF] + s1 + crlf() + b1, seq![LF] + s2 + crlf() + b2);
            crate::dec::lemma_val_of_dec_of(s1.len());
            crate::dec::lemma_val_of_dec_of(s2.len());
            assert(s1.len() == s2.len());
            assert((seq![LF] + s1) + (crlf() + b1) =~= seq![LF] + s1 + crlf() + b1);
            assert((seq![LF] + s2) + (crlf() + b2) =~= seq![LF] + s2 + crlf() + b2);
            lemma_split_eq(seq![LF] + s1, crlf() + b1, seq![LF] + s2, crlf() + b2);
            lemma_split_eq(seq![LF], s1, seq![LF], s2);
            lemma_split_eq(crlf(), b1, crlf(), b2);
        },
        FrameSpec::Array(items1) => {
            assert(f2 is Array) by {
                if f2 is Simple {
                    assert(false);
                }
                if f2 is Bulk {
                    assert(false);
                }
            }
            let items2 = f2->Array_0;
            let d1 = dec_of(items1.len());
            let d2 = dec_of(items2.len());
            crate::dec::lemma_dec_of_canon(items1.len());
            crate::dec::lemma_dec_of_canon(items2.len());
            let r1 = d1 + seq![CR] + (seq![LF] + encode_all(items1) + b1);
            let r2 = d2 + seq![CR] + (seq![LF] + encode_all(items2) + b2);
            assert(seq![ARRAY_MARK] + r1 =~= (seq![ARRAY_MARK] + d1 + crlf() + encode_all(items1))
                + b1);
            assert(seq![ARRAY_MARK] + r2 =~= (seq![ARRAY_MARK] + d2 + crlf() + encode_all(items2))
                + b2);
            lemma_split_eq(seq![ARRAY_MARK], r1, seq![ARRAY_MARK], r2);
            lemma_digit_line(
                d1,
                d2,
                seq![LF] + encode_all(items1) + b1,
                seq![LF] + encode_all(items2) + b2,
            );
            crate::dec::lemma_val_of_dec_of(items1.len());
            crate::dec::lemma_val_of_dec_of(items2.len());
            assert(items1.len() == items2.len());
            assert(seq![LF] + (encode_all(items1) + b1) =~= seq![LF] + encode_all(items1) + b1);
            assert(seq![LF] + (encode_all(items2) + b2) =~= seq![LF] + encode_all(items2) + b2);
            lemma_split_eq(
                seq![LF],
                encode_all(items1) + b1,
                seq![LF],
                encode_all(items2) + b2,
            );
            lemma_prefix_free_list(items1, items2, b1, b2);
            assert(items1 =~= items2.take(items1.len() as int));
            assert(items2.take(items1.len() as int) =~= items2);
        },
    }
}

/// Alignment of two encoded runs of frames: the shorter run is an exact
/// prefix of the longer, element for element.
pub proof fn lemma_prefix_free_list(l1: Seq<FrameSpec>, l2: Seq<FrameSpec>, b1: Seq<u8>, b2: Seq<u8>)
    requires
        wf_list(l1),
        wf_list(l2),
        l1.len() <= l2.len(),
        encode_all(l1) + b1 == encode_all(l2) + b2,
    ensures
        l1 == l2.take(l1.len() as int),
        b1 == encode_all(l2.skip(l1.len() as int)) + b2,
    decreases l1,
{
    if l1.len() == 0 {
        assert(encode_all(l1) + b1 =~= b1);
        assert(l1 =~= l2.take(0));
        assert(l2.skip(0) =~= l2);
    } else {
        assert(encode_of(l1[0]) + (encode_all(l1.drop_first()) + b1) =~= encode_all(l1) + b1);
        assert(encode_of(l2[0]) + (encode_all(l2.drop_first()) + b2) =~= encode_all(l2) + b2);
        assert(l1[0].wf());
        assert(l2[0].wf());
        lemma_prefix_free(
            l1[0],
            l2[0],
            encode_all(l1.drop_first()) + b1,
            encode_all(l2.drop_first()) + b2,
        );
        lemma_prefix_free_list(l1.drop_first(), l2.drop_first(), b1, b2);
        assert(l1 =~= l2.take(l1.len() as int)) by {
            assert(forall|i: int|
                1 <= i < l1.len() ==> l1[i] == #[trigger] l1.drop_first()[i - 1]);
            assert(forall|i: int|
                1 <= i < l1.len() ==> l2.drop_first().take(l1.len() - 1)[i - 1] == l2[i]);
        }
        assert(l2.drop_first().skip(l1.len() - 1) =~= l2.skip(l1.len() as int));
    }
}

/// Codec round trip: parsing the encoding of a well-formed frame can
/// only give that frame back, with an empty residual.
pub proof fn lemma_round_trip(f: FrameSpec, g: FrameSpec, rest: Seq<u8>)
    requires
        f.wf(),
        parses_to(encode_of(f), g, rest),
    ensures
        g == f,
        rest == Seq::<u8>::empty(),
{
    assert(encode_of(g) + rest == encode_of(f) + Seq::<u8>::empty()) by {
        assert(encode_of(f) + Seq::<u8>::empty() =~= encode_of(f));
    }
    lemma_prefix_free(g, f, rest, Seq::empty());
}

/// Residual preservation: parsing `encode(f) ++ extra` can only give
/// `(f, extra)`, byte for byte.
pub proof fn lemma_residual_preserved(f: FrameSpec, extra: Seq<u8>, g: FrameSpec, rest: Seq<u8>)
    requires
        f.wf(),
        parses_to(encode_of(f) + extra, g, rest),
    ensures
        g == f,
        rest == extra,
{
    lemma_prefix_free(g, f, rest, extra);
}

/// On input that opens with a whole well-formed frame a parse exists, so
/// the decoder's contract rules an error out there.
pub proof fn lemma_parse_exists(f: FrameSpec, extra: Seq<u8>)
    requires
        f.wf(),
    ensures
        parses_to(encode_of(f) + extra, f, extra),
        !no_parse(encode_of(f) + extra),
{
    assert(prefix_of(encode_of(f), encode_of(f) + extra));
}

/// The reply frame for a missing or expired key.
pub fn null_bulk() -> (r: Vec<u8>)
    ensures
        r@ == null_bulk_spec(),
{
    let mut v: Vec<u8> = Vec::new();
    v.push(BULK_MARK);
    v.push(45);
    v.push(49);
    v.push(CR);
    v.push(LF);
    proof {
        assert(v@ =~= null_bulk_spec());
    }
    v
}

} // verus!
